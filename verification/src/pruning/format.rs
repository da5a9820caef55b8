//! The `pruning.idx` on-disk layout.
//!
//! ```text
//! [MAGIC][version: u32 LE]
//! [column block 0]      each block independently codec-compressed
//! [column block 1]
//! ...
//! [footer: column directory + summaries]
//! [footer len: u64 LE][MAGIC]
//! ```
//!
//! The directory at the tail is what makes a single column readable on its own:
//! read the trailer, parse the footer, then fetch exactly the byte ranges you
//! want.

use crate::bytes::{
    law_le_roundtrip, le_bytes, le_value, lemma_le_bytes_len, lemma_le_ranges, push_le, read_le,
};
use crate::codec::{packs, unpacked_by, DecodeError};
use crate::config::Codec;
use crate::error::{seen, Error, Result};
use crate::pruning::bitmap::{count, flag, Bitmap};
use crate::pruning::column::{aligned, sound, ColumnModel, ColumnSummary, StatColumn, SummaryModel};
use crate::pruning::value::{StatModel, StatVal};
use crate::pruning::{key_models, key_shown, ColumnKey};
use crate::stats::stat_model;
use crate::text::{decimal, decimal_text};
use vstd::prelude::*;

verus! {

/// Bytes behind the footer: its length and the magic.
pub const TRAILER_SIZE: usize = 12;

/// Current layout version of `pruning.idx`.
pub const PRUNING_FORMAT_VERSION: u32 = 1;

/// Object name of the pruning index at the store root.
pub const PRUNING_INDEX_FILE: &'static str = "pruning.idx";

/// How many trailing bytes to fetch when looking for the footer.
pub const FOOTER_SUFFIX_HINT: u64 = 262_144;

/// Marks both ends of the file, so a truncated or foreign object is rejected
/// rather than misread.
pub open spec fn index_magic() -> Seq<u8> {
    seq![65u8, 80u8, 82u8, 78u8]
}

/// How many of the first `n` flags are set.
pub open spec fn set_below(flags: Seq<bool>, n: int) -> nat
    decreases n,
{
    if n <= 0 {
        0
    } else {
        set_below(flags, n - 1) + if flag(flags, n - 1) {
            1nat
        } else {
            0nat
        }
    }
}

/// The values of the first `n` rows whose flag is set.
pub open spec fn picked<T>(values: Seq<T>, flags: Seq<bool>, n: int) -> Seq<T>
    decreases n,
{
    if n <= 0 {
        Seq::empty()
    } else if flag(flags, n - 1) {
        picked(values, flags, n - 1).push(values[n - 1])
    } else {
        picked(values, flags, n - 1)
    }
}

/// What a column's stored form holds.
#[verifier::ext_equal]
pub struct BlockModel {
    /// Which rows are present.
    pub present: Seq<bool>,
    /// Which rows have a range.
    pub stats_valid: Seq<bool>,
    /// One minimum per row with a range, in row order.
    pub min: Seq<StatModel>,
    /// One maximum per row with a range, in row order.
    pub max: Seq<StatModel>,
    /// One element count per present row, in row order.
    pub row_count: Seq<u64>,
    /// One null count per present row, in row order.
    pub null_count: Seq<u64>,
}

/// A bound, or zero where there is none.
pub open spec fn bound_or_zero(v: Option<StatModel>) -> StatModel {
    match v {
        Some(x) => x,
        None => StatModel::Int(0),
    }
}

/// The bounds of a column, with zero where there is none.
pub open spec fn bounds(values: Seq<Option<StatModel>>) -> Seq<StatModel> {
    Seq::new(values.len(), |i: int| bound_or_zero(values[i]))
}

/// The stored form of a column: values only for the rows that have them.
pub open spec fn compacted(c: ColumnModel) -> BlockModel {
    let n = c.min.len() as int;
    BlockModel {
        present: c.present,
        stats_valid: c.stats_valid,
        min: picked(bounds(c.min), c.stats_valid, n),
        max: picked(bounds(c.max), c.stats_valid, n),
        row_count: picked(c.row_count, c.present, n),
        null_count: picked(c.null_count, c.present, n),
    }
}

/// The rows a block covers.
pub open spec fn block_rows(b: BlockModel) -> nat {
    if b.present.len() < b.stats_valid.len() {
        b.stats_valid.len()
    } else {
        b.present.len()
    }
}

/// The value of a row that has one.
pub open spec fn value_in<T>(values: Seq<T>, flags: Seq<bool>, row: int) -> Option<T> {
    if flag(flags, row) && set_below(flags, row) < values.len() {
        Some(values[set_below(flags, row) as int])
    } else {
        None
    }
}

/// The count of a row; zero where there is none.
pub open spec fn count_in(values: Seq<u64>, flags: Seq<bool>, row: int) -> u64 {
    match value_in(values, flags, row) {
        Some(v) => v,
        None => 0,
    }
}

/// The column a block stands for.
pub open spec fn expanded(b: BlockModel) -> ColumnModel {
    let n = block_rows(b);
    ColumnModel {
        present: b.present,
        stats_valid: b.stats_valid,
        min: Seq::new(n, |row: int| value_in(b.min, b.stats_valid, row)),
        max: Seq::new(n, |row: int| value_in(b.max, b.stats_valid, row)),
        row_count: Seq::new(n, |row: int| count_in(b.row_count, b.present, row)),
        null_count: Seq::new(n, |row: int| count_in(b.null_count, b.present, row)),
    }
}

proof fn lemma_picked<T>(values: Seq<T>, flags: Seq<bool>, n: int)
    requires
        0 <= n <= values.len(),
    ensures
        picked(values, flags, n).len() == set_below(flags, n),
        forall|row: int|
            0 <= row < n && #[trigger] flag(flags, row) ==> set_below(flags, row) < set_below(
                flags,
                n,
            ) && picked(values, flags, n)[set_below(flags, row) as int] == values[row],
    decreases n,
{
    if n > 0 {
        lemma_picked(values, flags, n - 1);
    }
}

/// A column survives its stored form: what was compacted expands to the same
/// column.
pub proof fn law_compacted_column_expands_to_itself(c: ColumnModel)
    requires
        sound(c),
    ensures
        expanded(compacted(c)) == c,
{
    let n = c.min.len() as int;
    let e = expanded(compacted(c));
    lemma_picked(bounds(c.min), c.stats_valid, n);
    lemma_picked(bounds(c.max), c.stats_valid, n);
    lemma_picked(c.row_count, c.present, n);
    lemma_picked(c.null_count, c.present, n);
    assert forall|row: int| 0 <= row < n implies {
        &&& e.min[row] == c.min[row]
        &&& e.max[row] == c.max[row]
        &&& e.row_count[row] == c.row_count[row]
        &&& e.null_count[row] == c.null_count[row]
    } by {
        assert(c.stats_valid[row] <==> c.min[row] is Some);
        assert(flag(c.stats_valid, row) == c.stats_valid[row]);
        assert(flag(c.present, row) == c.present[row]);
    }
    assert(e.min =~= c.min);
    assert(e.max =~= c.max);
    assert(e.row_count =~= c.row_count);
    assert(e.null_count =~= c.null_count);
}

/// A column's stored form: values only for the rows that have them.
///
/// The bitmaps carry the positions, so a column present in 20 of 10 000 rows
/// stores 20 values, not 10 000 slots.
#[derive(Debug)]
pub struct ColumnBlock {
    /// Which rows are present.
    pub present: Bitmap,
    /// Which rows have a range.
    pub stats_valid: Bitmap,
    /// One entry per set bit of `stats_valid`, in row order.
    pub min: Vec<StatVal>,
    /// One entry per set bit of `stats_valid`, in row order.
    pub max: Vec<StatVal>,
    /// One entry per set bit of `present`, in row order.
    pub row_count: Vec<u64>,
    /// One entry per set bit of `present`, in row order.
    pub null_count: Vec<u64>,
}

/// What some values are.
pub open spec fn values_seen(values: Seq<StatVal>) -> Seq<StatModel> {
    Seq::new(values.len(), |i: int| values[i]@)
}

impl View for ColumnBlock {
    type V = BlockModel;

    open spec fn view(&self) -> BlockModel {
        BlockModel {
            present: self.present@,
            stats_valid: self.stats_valid@,
            min: values_seen(self.min@),
            max: values_seen(self.max@),
            row_count: self.row_count@,
            null_count: self.null_count@,
        }
    }
}

fn bound_copy(value: &Option<StatVal>) -> (copy: StatVal)
    ensures
        copy@ == bound_or_zero(stat_model(*value)),
{
    match value {
        Some(v) => v.clone(),
        None => StatVal::Int(0),
    }
}

fn value_copy(values: &Vec<StatVal>, i: usize) -> (copy: Option<StatVal>)
    ensures
        stat_model(copy) == (if i < values@.len() {
            Some(values@[i as int]@)
        } else {
            None
        }),
{
    if i < values.len() {
        Some(values[i].clone())
    } else {
        None
    }
}

fn count_copy(values: &Vec<u64>, i: usize) -> (copy: u64)
    ensures
        copy == (if i < values@.len() {
            values@[i as int]
        } else {
            0
        }),
{
    if i < values.len() {
        values[i]
    } else {
        0
    }
}

impl ColumnBlock {
    /// The stored form of a column.
    pub fn compact(column: &StatColumn) -> (block: Self)
        requires
            aligned(column@),
        ensures
            block@ == compacted(column@),
    {
        let ghost c = column@;
        let mut min: Vec<StatVal> = Vec::new();
        let mut max: Vec<StatVal> = Vec::new();
        let mut row_count: Vec<u64> = Vec::new();
        let mut null_count: Vec<u64> = Vec::new();
        let rows: usize = column.min.len();
        let mut row: usize = 0;
        assert(values_seen(min@) =~= Seq::empty());
        assert(values_seen(max@) =~= Seq::empty());
        while row < rows
            invariant
                rows == column.min@.len(),
                row <= rows,
                c == column@,
                aligned(c),
                values_seen(min@) == picked(bounds(c.min), c.stats_valid, row as int),
                values_seen(max@) == picked(bounds(c.max), c.stats_valid, row as int),
                row_count@ == picked(c.row_count, c.present, row as int),
                null_count@ == picked(c.null_count, c.present, row as int),
            decreases rows - row,
        {
            if column.present.get(row) {
                row_count.push(column.row_count[row]);
                null_count.push(column.null_count[row]);
            }
            if column.stats_valid.get(row) {
                let ghost lows = values_seen(min@);
                let ghost highs = values_seen(max@);
                let low = bound_copy(&column.min[row]);
                let high = bound_copy(&column.max[row]);
                min.push(low);
                max.push(high);
                assert(values_seen(min@) =~= lows.push(low@));
                assert(values_seen(max@) =~= highs.push(high@));
            }
            row += 1;
        }
        ColumnBlock {
            present: column.present.clone(),
            stats_valid: column.stats_valid.clone(),
            min,
            max,
            row_count,
            null_count,
        }
    }

    /// The column a block stands for.
    pub fn expand(self) -> (column: StatColumn)
        ensures
            column@ == expanded(self@),
    {
        let ghost b = self@;
        let rows: usize = if self.present.len() < self.stats_valid.len() {
            self.stats_valid.len()
        } else {
            self.present.len()
        };
        let mut min: Vec<Option<StatVal>> = Vec::new();
        let mut max: Vec<Option<StatVal>> = Vec::new();
        let mut row_count: Vec<u64> = Vec::new();
        let mut null_count: Vec<u64> = Vec::new();
        let mut value_idx: usize = 0;
        let mut count_idx: usize = 0;
        let mut row: usize = 0;
        while row < rows
            invariant
                row <= rows,
                b == self@,
                rows == block_rows(b),
                value_idx == set_below(b.stats_valid, row as int),
                count_idx == set_below(b.present, row as int),
                value_idx <= row,
                count_idx <= row,
                min@.len() == row,
                max@.len() == row,
                row_count@.len() == row,
                null_count@.len() == row,
                forall|j: int|
                    0 <= j < row ==> stat_model(#[trigger] min@[j]) == value_in(
                        b.min,
                        b.stats_valid,
                        j,
                    ),
                forall|j: int|
                    0 <= j < row ==> stat_model(#[trigger] max@[j]) == value_in(
                        b.max,
                        b.stats_valid,
                        j,
                    ),
                forall|j: int|
                    0 <= j < row ==> #[trigger] row_count@[j] == count_in(
                        b.row_count,
                        b.present,
                        j,
                    ),
                forall|j: int|
                    0 <= j < row ==> #[trigger] null_count@[j] == count_in(
                        b.null_count,
                        b.present,
                        j,
                    ),
            decreases rows - row,
        {
            if self.present.get(row) {
                row_count.push(count_copy(&self.row_count, count_idx));
                null_count.push(count_copy(&self.null_count, count_idx));
                count_idx += 1;
            } else {
                row_count.push(0);
                null_count.push(0);
            }
            if self.stats_valid.get(row) {
                min.push(value_copy(&self.min, value_idx));
                max.push(value_copy(&self.max, value_idx));
                value_idx += 1;
            } else {
                min.push(None);
                max.push(None);
            }
            row += 1;
        }
        let column = StatColumn {
            present: self.present,
            stats_valid: self.stats_valid,
            min,
            max,
            row_count,
            null_count,
        };
        assert(column@.min =~= expanded(b).min);
        assert(column@.max =~= expanded(b).max);
        assert(column@.row_count =~= expanded(b).row_count);
        assert(column@.null_count =~= expanded(b).null_count);
        column
    }
}

/// Where one column's block lives, and what it holds, without reading it.
#[derive(Debug)]
pub struct ColumnDirEntry {
    /// The column.
    pub key: ColumnKey,
    /// Where its block starts in the file.
    pub offset: u64,
    /// How many bytes its block has.
    pub compressed_len: u64,
    /// Its collection-wide range.
    pub summary: ColumnSummary,
}

/// What a directory entry says.
#[verifier::ext_equal]
pub struct EntryModel {
    /// The column.
    pub key: ColumnKey<Seq<char>>,
    /// Where its block starts in the file.
    pub offset: u64,
    /// How many bytes its block has.
    pub len: u64,
    /// Its collection-wide range.
    pub summary: SummaryModel,
}

impl View for ColumnDirEntry {
    type V = EntryModel;

    open spec fn view(&self) -> EntryModel {
        EntryModel {
            key: self.key@,
            offset: self.offset,
            len: self.compressed_len,
            summary: self.summary@,
        }
    }
}

/// What some directory entries say.
pub open spec fn entry_models(entries: Seq<ColumnDirEntry>) -> Seq<EntryModel> {
    Seq::new(entries.len(), |i: int| entries[i]@)
}

/// The directory at the tail of the file.
#[derive(Debug)]
pub struct IndexFooter {
    /// Layout version.
    pub version: u32,
    /// Must match the store metadata's epoch.
    pub meta_epoch: u64,
    /// Row slots covered, deleted ones included.
    pub row_count: usize,
    /// Codec each block was compressed with.
    pub codec: Codec,
    /// The columns, in stored order.
    pub columns: Vec<ColumnDirEntry>,
}

/// The first entry of a column.
pub open spec fn entry_at(entries: Seq<EntryModel>, key: ColumnKey<Seq<char>>, i: int) -> bool {
    &&& 0 <= i < entries.len()
    &&& entries[i].key == key
    &&& forall|j: int| 0 <= j < i ==> (#[trigger] entries[j]).key != key
}

/// No entry is of the column.
pub open spec fn no_entry(entries: Seq<EntryModel>, key: ColumnKey<Seq<char>>) -> bool {
    forall|j: int| 0 <= j < entries.len() ==> (#[trigger] entries[j]).key != key
}

/// The byte ranges of the wanted columns that are in the file, in the order
/// they were asked for.
pub open spec fn ranges_of(
    entries: Seq<EntryModel>,
    wanted: Seq<ColumnKey<Seq<char>>>,
) -> Seq<(ColumnKey<Seq<char>>, u64, u64)>
    decreases wanted.len(),
{
    if wanted.len() == 0 {
        Seq::empty()
    } else {
        let front = ranges_of(entries, wanted.drop_last());
        let key = wanted.last();
        if no_entry(entries, key) {
            front
        } else {
            let e = entries[choose|i: int| entry_at(entries, key, i)];
            front.push((key, e.offset, (e.offset + e.len) as u64))
        }
    }
}

/// Every block ends at a position of 64 bits.
pub open spec fn blocks_addressable(entries: Seq<EntryModel>) -> bool {
    forall|i: int|
        0 <= i < entries.len() ==> (#[trigger] entries[i]).offset + entries[i].len <= u64::MAX
}

/// Some columns with their byte ranges.
pub open spec fn range_models(list: Seq<(ColumnKey, u64, u64)>) -> Seq<
    (ColumnKey<Seq<char>>, u64, u64),
> {
    Seq::new(list.len(), |i: int| (list[i].0@, list[i].1, list[i].2))
}

/// Some columns with their summaries.
pub open spec fn summary_models(list: Seq<(ColumnKey, ColumnSummary)>) -> Seq<
    (ColumnKey<Seq<char>>, SummaryModel),
> {
    Seq::new(list.len(), |i: int| (list[i].0@, list[i].1@))
}

/// Why a column could not be unpacked.
#[derive(Debug)]
pub enum ColumnError {
    /// The index does not hold it, or not inside the file.
    Index(Error),
    /// Its block could not be decompressed.
    Decode(DecodeError),
}

fn no_such_column(key: &ColumnKey) -> (error: Error)
    ensures
        error@ == Error::CorruptIndex("no such pruning column: "@ + key_shown(key@)),
{
    let mut text: String = "no such pruning column: ".to_owned();
    text.append(key.show().as_str());
    Error::CorruptIndex(text)
}

impl IndexFooter {
    /// What the directory says.
    pub open spec fn entries(&self) -> Seq<EntryModel> {
        entry_models(self.columns@)
    }

    /// Every column's key and collection-wide summary.
    pub fn summaries(&self) -> (list: Vec<(ColumnKey, ColumnSummary)>)
        ensures
            summary_models(list@) == Seq::new(
                self.entries().len(),
                |i: int| (self.entries()[i].key, self.entries()[i].summary),
            ),
    {
        let mut list: Vec<(ColumnKey, ColumnSummary)> = Vec::new();
        let mut i: usize = 0;
        while i < self.columns.len()
            invariant
                i <= self.columns@.len(),
                list@.len() == i,
                forall|j: int|
                    0 <= j < i ==> ((#[trigger] list@[j]).0@, list@[j].1@) == (
                        self.columns@[j].key@,
                        self.columns@[j].summary@,
                    ),
            decreases self.columns@.len() - i,
        {
            list.push((self.columns[i].key.clone(), self.columns[i].summary.clone()));
            i += 1;
        }
        assert(summary_models(list@) =~= Seq::new(
            self.entries().len(),
            |i: int| (self.entries()[i].key, self.entries()[i].summary),
        ));
        list
    }

    fn find(&self, key: &ColumnKey) -> (found: Option<usize>)
        ensures
            match found {
                Some(i) => entry_at(self.entries(), key@, i as int),
                None => no_entry(self.entries(), key@),
            },
    {
        let mut i: usize = 0;
        while i < self.columns.len()
            invariant
                i <= self.columns@.len(),
                forall|j: int| 0 <= j < i ==> (#[trigger] self.entries()[j]).key != key@,
            decreases self.columns@.len() - i,
        {
            assert(self.entries()[i as int] == self.columns@[i as int]@);
            if self.columns[i].key.same(key) {
                return Some(i);
            }
            i += 1;
        }
        None
    }

    /// Byte range of each requested column, skipping any not in the file.
    ///
    /// This is what turns a read of 3 of 102 columns into three ranged reads.
    pub fn ranges_for(&self, wanted: &[ColumnKey]) -> (list: Vec<(ColumnKey, u64, u64)>)
        requires
            blocks_addressable(self.entries()),
        ensures
            range_models(list@) == ranges_of(self.entries(), key_models(wanted@)),
    {
        let ghost all = key_models(wanted@);
        let mut list: Vec<(ColumnKey, u64, u64)> = Vec::new();
        let mut i: usize = 0;
        assert(range_models(list@) =~= Seq::empty());
        assert(all.take(0) =~= Seq::empty());
        while i < wanted.len()
            invariant
                i <= wanted@.len(),
                all == key_models(wanted@),
                blocks_addressable(self.entries()),
                range_models(list@) == ranges_of(self.entries(), all.take(i as int)),
            decreases wanted@.len() - i,
        {
            let ghost before = range_models(list@);
            let ghost key = all[i as int];
            proof {
                assert(all.take(i + 1).drop_last() =~= all.take(i as int));
                assert(all.take(i + 1).last() == key);
            }
            match self.find(&wanted[i]) {
                Some(at) => {
                    proof {
                        let c = choose|k: int| entry_at(self.entries(), key, k);
                        assert(entry_at(self.entries(), key, at as int));
                        assert(entry_at(self.entries(), key, c));
                        assert(c == at) by {
                            if c < at {
                                assert(self.entries()[c].key != key);
                            } else if at < c {
                                assert(self.entries()[at as int].key != key);
                            }
                        }
                        assert(self.entries()[at as int].offset + self.entries()[at as int].len
                            <= u64::MAX);
                        assert(!no_entry(self.entries(), key));
                    }
                    let entry = &self.columns[at];
                    list.push(
                        (wanted[i].clone(), entry.offset, entry.offset + entry.compressed_len),
                    );
                    assert(range_models(list@) =~= before.push(
                        (key, entry.offset, (entry.offset + entry.compressed_len) as u64),
                    ));
                },
                None => {},
            }
            i += 1;
        }
        assert(all.take(i as int) =~= all);
        list
    }

    /// Column keys in stored order.
    pub fn keys(&self) -> (keys: Vec<ColumnKey>)
        ensures
            key_models(keys@) == Seq::new(
                self.entries().len(),
                |i: int| self.entries()[i].key,
            ),
    {
        let mut keys: Vec<ColumnKey> = Vec::new();
        let mut i: usize = 0;
        while i < self.columns.len()
            invariant
                i <= self.columns@.len(),
                keys@.len() == i,
                forall|j: int| 0 <= j < i ==> (#[trigger] keys@[j])@ == self.columns@[j].key@,
            decreases self.columns@.len() - i,
        {
            keys.push(self.columns[i].key.clone());
            i += 1;
        }
        assert(key_models(keys@) =~= Seq::new(
            self.entries().len(),
            |i: int| self.entries()[i].key,
        ));
        keys
    }

    /// Unpacks one column from exactly its own block bytes.
    pub fn unpack_column(&self, key: &ColumnKey, block: &[u8]) -> (raw: std::result::Result<
        Vec<u8>,
        ColumnError,
    >)
        ensures
            match raw {
                Ok(r) => !no_entry(self.entries(), key@) && unpacked_by(self.codec, block@)
                    == Some(r@),
                Err(ColumnError::Index(e)) => no_entry(self.entries(), key@) && e@
                    == Error::CorruptIndex("no such pruning column: "@ + key_shown(key@)),
                Err(ColumnError::Decode(_)) => !no_entry(self.entries(), key@) && unpacked_by(
                    self.codec,
                    block@,
                ) is None,
            },
    {
        match self.find(key) {
            None => Err(ColumnError::Index(no_such_column(key))),
            Some(at) => {
                assert(self.entries()[at as int].key == key@);
                match self.codec.decompress(block) {
                    Ok(raw) => Ok(raw),
                    Err(e) => Err(ColumnError::Decode(e)),
                }
            },
        }
    }

    /// Unpacks a column from a buffer holding the whole file.
    pub fn unpack_column_at(&self, bytes: &[u8], key: &ColumnKey) -> (raw: std::result::Result<
        Vec<u8>,
        ColumnError,
    >)
        ensures
            match raw {
                Ok(r) => exists|i: int| #[trigger]
                    entry_at(self.entries(), key@, i) && {
                        let e = self.entries()[i];
                        &&& e.offset + e.len <= bytes@.len()
                        &&& unpacked_by(
                            self.codec,
                            bytes@.subrange(e.offset as int, e.offset + e.len),
                        ) == Some(r@)
                    },
                Err(ColumnError::Index(e)) => {
                    ||| no_entry(self.entries(), key@) && e@ == Error::CorruptIndex(
                        "no such pruning column: "@ + key_shown(key@),
                    )
                    ||| e@ == Error::CorruptIndex("pruning index column range out of bounds"@)
                        && exists|i: int| #[trigger]
                        entry_at(self.entries(), key@, i) && self.entries()[i].offset
                            + self.entries()[i].len > bytes@.len()
                },
                Err(ColumnError::Decode(_)) => exists|i: int| #[trigger]
                    entry_at(self.entries(), key@, i) && {
                        let e = self.entries()[i];
                        &&& e.offset + e.len <= bytes@.len()
                        &&& unpacked_by(
                            self.codec,
                            bytes@.subrange(e.offset as int, e.offset + e.len),
                        ) is None
                    },
            },
    {
        match self.find(key) {
            None => Err(ColumnError::Index(no_such_column(key))),
            Some(at) => {
                assert(entry_at(self.entries(), key@, at as int));
                let offset: u64 = self.columns[at].offset;
                let len: u64 = self.columns[at].compressed_len;
                let size: u64 = bytes.len() as u64;
                if offset > size || len > size - offset {
                    return Err(
                        ColumnError::Index(
                            Error::CorruptIndex(
                                "pruning index column range out of bounds".to_owned(),
                            ),
                        ),
                    );
                }
                let start: usize = offset as usize;
                let end: usize = (offset + len) as usize;
                let block: &[u8] = vstd::slice::slice_subrange(bytes, start, end);
                match self.codec.decompress(block) {
                    Ok(raw) => Ok(raw),
                    Err(e) => Err(ColumnError::Decode(e)),
                }
            },
        }
    }

    /// Refuses a footer of another layout version.
    pub fn check_version(&self) -> (verdict: Result<()>)
        ensures
            match verdict {
                Ok(_) => self.version == PRUNING_FORMAT_VERSION,
                Err(e) => self.version != PRUNING_FORMAT_VERSION && e@ == Error::CorruptIndex(
                    "unsupported pruning index version "@ + decimal(self.version as nat)
                        + " (expected 1)"@,
                ),
            },
    {
        if self.version != PRUNING_FORMAT_VERSION {
            let mut text: String = "unsupported pruning index version ".to_owned();
            text.append(decimal_text(self.version as u64).as_str());
            text.append(" (expected 1)");
            return Err(Error::CorruptIndex(text));
        }
        Ok(())
    }

    /// Refuses a footer that was built against another dataset list. Rows are
    /// positional, so every row would silently mean a different dataset.
    pub fn check_epoch(&self, expected: u64) -> (verdict: Result<()>)
        ensures
            match verdict {
                Ok(_) => self.meta_epoch == expected,
                Err(e) => self.meta_epoch != expected && e@ == Error::CorruptIndex(
                    "pruning index is stale: epoch "@ + decimal(self.meta_epoch as nat)
                        + " but metadata is at "@ + decimal(expected as nat)
                        + "; flush to rebuild it"@,
                ),
            },
    {
        if self.meta_epoch != expected {
            let mut text: String = "pruning index is stale: epoch ".to_owned();
            text.append(decimal_text(self.meta_epoch).as_str());
            text.append(" but metadata is at ");
            text.append(decimal_text(expected).as_str());
            text.append("; flush to rebuild it");
            return Err(Error::CorruptIndex(text));
        }
        Ok(())
    }
}

/// A `pruning.idx` image while it is written: the header and the blocks so far,
/// and their directory.
#[derive(Debug)]
pub struct IndexImage {
    /// The bytes so far.
    pub bytes: Vec<u8>,
    /// The directory so far.
    pub entries: Vec<ColumnDirEntry>,
}

/// The first bytes of an image.
pub open spec fn image_header() -> Seq<u8> {
    index_magic() + le_bytes(PRUNING_FORMAT_VERSION as nat, 4)
}

/// The bytes behind the blocks of an image: the footer, its length, the magic.
pub open spec fn image_tail(footer: Seq<u8>) -> Seq<u8> {
    footer + le_bytes(footer.len(), 8) + index_magic()
}

impl IndexImage {
    /// An image without a column.
    pub fn new() -> (image: Self)
        ensures
            image.bytes@ == image_header(),
            image.entries@.len() == 0,
    {
        let mut bytes: Vec<u8> = Vec::new();
        bytes.push(65);
        bytes.push(80);
        bytes.push(82);
        bytes.push(78);
        assert(bytes@ =~= index_magic());
        push_le(&mut bytes, PRUNING_FORMAT_VERSION as u64, 4);
        IndexImage { bytes, entries: Vec::new() }
    }

    /// Appends the block of a column, compressed, and records where it is.
    pub fn add_column(
        &mut self,
        key: ColumnKey,
        encoded: Vec<u8>,
        summary: ColumnSummary,
        codec: Codec,
    ) -> (done: std::result::Result<(), std::io::Error>)
        ensures
            done is Ok,
            ({
                let start = old(self).bytes@.len() as int;
                let packed = final(self).bytes@.skip(start);
                &&& final(self).bytes@.len() >= start
                &&& final(self).bytes@.take(start) == old(self).bytes@
                &&& packs(codec, encoded@, packed)
                &&& entry_models(final(self).entries@) == entry_models(old(self).entries@).push(
                    EntryModel {
                        key: key@,
                        offset: start as u64,
                        len: packed.len() as u64,
                        summary: summary@,
                    },
                )
            }),
    {
        let ghost before = entry_models(self.entries@);
        let offset: u64 = self.bytes.len() as u64;
        match codec.compress(encoded) {
            Err(e) => Err(e),
            Ok(packed) => {
                let mut packed: Vec<u8> = packed;
                let compressed_len: u64 = packed.len() as u64;
                let ghost start = self.bytes@.len() as int;
                let ghost block = packed@;
                self.bytes.append(&mut packed);
                assert(self.bytes@.take(start) =~= old(self).bytes@);
                assert(self.bytes@.skip(start) =~= block);
                let entry = ColumnDirEntry { key, offset, compressed_len, summary };
                let ghost said = entry@;
                self.entries.push(entry);
                assert(entry_models(self.entries@) =~= before.push(said));
                Ok(())
            },
        }
    }

    /// The directory of the image.
    pub fn footer(self, rows: usize, meta_epoch: u64, codec: Codec) -> (out: (Vec<u8>, IndexFooter))
        ensures
            out.0@ == self.bytes@,
            out.1.entries() == entry_models(self.entries@),
            out.1.version == PRUNING_FORMAT_VERSION,
            out.1.meta_epoch == meta_epoch,
            out.1.row_count == rows,
            out.1.codec == codec,
    {
        (
            self.bytes,
            IndexFooter {
                version: PRUNING_FORMAT_VERSION,
                meta_epoch,
                row_count: rows,
                codec,
                columns: self.entries,
            },
        )
    }
}

/// Appends an encoded footer to the blocks of an image.
pub fn finish_image(blocks: Vec<u8>, footer: &[u8]) -> (image: Vec<u8>)
    ensures
        image@ == blocks@ + image_tail(footer@),
{
    let mut image: Vec<u8> = blocks;
    let ghost start = image@;
    let mut i: usize = 0;
    assert(footer@.take(0) =~= Seq::empty());
    assert(start + footer@.take(0) =~= start);
    while i < footer.len()
        invariant
            i <= footer@.len(),
            image@ == start + footer@.take(i as int),
        decreases footer@.len() - i,
    {
        image.push(footer[i]);
        assert(start + footer@.take(i + 1) =~= (start + footer@.take(i as int)).push(
            footer@[i as int],
        ));
        i += 1;
    }
    assert(footer@.take(i as int) =~= footer@);
    push_le(&mut image, footer.len() as u64, 8);
    image.push(65);
    image.push(80);
    image.push(82);
    image.push(78);
    assert(image@ =~= start + image_tail(footer@));
    image
}

/// Where the footer of a file is, as its last bytes say.
#[derive(Debug, PartialEq, Eq)]
pub enum FooterRead {
    /// The footer is between these positions of the bytes at hand.
    Footer {
        /// Its first byte.
        start: usize,
        /// The byte behind its last.
        end: usize,
    },
    /// The bytes at hand are too few; read this many trailing bytes.
    NeedMore(u64),
}

/// What the last bytes of a file say of its footer.
pub open spec fn footer_span(suffix: Seq<u8>, file_len: u64) -> std::result::Result<
    FooterRead,
    Error<Seq<char>>,
> {
    let len_start = suffix.len() - TRAILER_SIZE;
    let needed = le_value(suffix.subrange(len_start, len_start + 8)) + TRAILER_SIZE;
    if suffix.len() < TRAILER_SIZE {
        Err(Error::CorruptIndex("pruning index suffix shorter than its trailer"@))
    } else if suffix.skip(suffix.len() - 4) != index_magic() {
        Err(Error::CorruptIndex("pruning index magic mismatch"@))
    } else if needed > suffix.len() {
        if needed > file_len {
            Err(Error::CorruptIndex("pruning index footer length exceeds file"@))
        } else {
            Ok(FooterRead::NeedMore(needed as u64))
        }
    } else {
        Ok(
            FooterRead::Footer {
                start: (suffix.len() - needed) as usize,
                end: len_start as usize,
            },
        )
    }
}

/// Locates the footer from the file's trailing bytes.
///
/// `suffix` is the last bytes of a file of `file_len` bytes: a single ranged
/// read of the tail. When the footer is longer than the bytes fetched, reports
/// how many are needed rather than cutting it off.
pub fn footer_from_suffix(suffix: &[u8], file_len: u64) -> (read: Result<FooterRead>)
    ensures
        seen(read) == footer_span(suffix@, file_len),
{
    let len: usize = suffix.len();
    if len < TRAILER_SIZE {
        return Err(
            Error::CorruptIndex("pruning index suffix shorter than its trailer".to_owned()),
        );
    }
    let same = suffix[len - 4] == 65 && suffix[len - 3] == 80 && suffix[len - 2] == 82
        && suffix[len - 1] == 78;
    proof {
        let part = suffix@.skip(len - 4);
        assert(part[0] == suffix@[len - 4]);
        assert(part[1] == suffix@[len - 3]);
        assert(part[2] == suffix@[len - 2]);
        assert(part[3] == suffix@[len - 1]);
        if same {
            assert(part =~= index_magic());
        }
    }
    if !same {
        return Err(Error::CorruptIndex("pruning index magic mismatch".to_owned()));
    }
    let len_start: usize = len - TRAILER_SIZE;
    let footer_len: u64 = read_le(suffix, len_start, 8);
    if footer_len > len_start as u64 {
        if file_len < 12 || footer_len > file_len - 12 {
            return Err(Error::CorruptIndex("pruning index footer length exceeds file".to_owned()));
        }
        return Ok(FooterRead::NeedMore(footer_len + 12));
    }
    Ok(FooterRead::Footer { start: len_start - footer_len as usize, end: len_start })
}

/// Locates the footer in a whole-file buffer.
pub fn read_footer(bytes: &[u8]) -> (span: Result<(usize, usize)>)
    ensures
        match footer_span(bytes@, bytes@.len() as u64) {
            Ok(FooterRead::Footer { start, end }) => span matches Ok(s) && s == (start, end),
            Ok(FooterRead::NeedMore(_)) => span matches Err(e) && e@ == Error::CorruptIndex(
                "pruning index footer exceeds the file"@,
            ),
            Err(error) => span matches Err(e) && e@ == error,
        },
{
    match footer_from_suffix(bytes, bytes.len() as u64) {
        Ok(FooterRead::Footer { start, end }) => Ok((start, end)),
        Ok(FooterRead::NeedMore(_)) => Err(
            Error::CorruptIndex("pruning index footer exceeds the file".to_owned()),
        ),
        Err(e) => Err(e),
    }
}

/// The footer of a written image is found again, in the whole file or in any
/// tail that covers it.
pub proof fn law_footer_of_an_image_is_found(before: Seq<u8>, footer: Seq<u8>, file_len: u64)
    requires
        before.len() + footer.len() + TRAILER_SIZE <= usize::MAX,
    ensures
        ({
            let tail = before + image_tail(footer);
            let start = before.len();
            let end = before.len() + footer.len();
            &&& tail.len() == end + TRAILER_SIZE
            &&& footer_span(tail, file_len) == Ok::<FooterRead, Error<Seq<char>>>(
                FooterRead::Footer { start: start as usize, end: end as usize },
            )
            &&& tail.subrange(start as int, end as int) == footer
        }),
{
    let tail = before + image_tail(footer);
    lemma_le_ranges();
    lemma_le_bytes_len(footer.len(), 8);
    law_le_roundtrip(footer.len(), 8);
    let len_start = before.len() + footer.len();
    assert(tail.subrange(len_start as int, (len_start + 8) as int) =~= le_bytes(footer.len(), 8));
    assert(tail.skip(tail.len() - 4) =~= index_magic());
    assert(tail.subrange(before.len() as int, len_start as int) =~= footer);
}

/// A block that was appended stays where its entry says, whatever follows.
pub proof fn law_block_stays_in_place(before: Seq<u8>, block: Seq<u8>, after: Seq<u8>)
    ensures
        (before + block + after).subrange(
            before.len() as int,
            (before.len() + block.len()) as int,
        ) == block,
{
    assert((before + block + after).subrange(
        before.len() as int,
        (before.len() + block.len()) as int,
    ) =~= block);
}

/// What to do in the search for the footer of a file.
#[derive(Debug, PartialEq, Eq)]
pub enum SearchStep {
    /// The footer is between these positions of the bytes at hand.
    Found {
        /// Its first byte.
        start: usize,
        /// The byte behind its last.
        end: usize,
    },
    /// Read this many trailing bytes, and ask again.
    ReadAgain(u64),
}

/// How many trailing bytes the search for a footer reads first.
pub fn first_read(file_len: u64) -> (n: u64)
    ensures
        n == (if file_len < FOOTER_SUFFIX_HINT {
            file_len
        } else {
            FOOTER_SUFFIX_HINT
        }),
{
    if file_len < FOOTER_SUFFIX_HINT {
        file_len
    } else {
        FOOTER_SUFFIX_HINT
    }
}

/// One step of the search for the footer of a file. At most two reads: the
/// first, and one of the size it reports.
pub fn search_step(second: bool, suffix: &[u8], file_len: u64) -> (step: Result<SearchStep>)
    ensures
        match footer_span(suffix@, file_len) {
            Ok(FooterRead::Footer { start, end }) => step matches Ok(s) && s == (
            SearchStep::Found { start, end }),
            Ok(FooterRead::NeedMore(n)) => if second {
                step matches Err(e) && e@ == Error::CorruptIndex(
                    "pruning index footer could not be read"@,
                )
            } else {
                step matches Ok(s) && s == SearchStep::ReadAgain(n) && n <= file_len
            },
            Err(error) => step matches Err(e) && e@ == error,
        },
{
    match footer_from_suffix(suffix, file_len) {
        Ok(FooterRead::Footer { start, end }) => Ok(SearchStep::Found { start, end }),
        Ok(FooterRead::NeedMore(n)) => if second {
            Err(Error::CorruptIndex("pruning index footer could not be read".to_owned()))
        } else {
            Ok(SearchStep::ReadAgain(n))
        },
        Err(e) => Err(e),
    }
}

/// The values of a stored column stand in row order: that of a row comes behind
/// those of as many rows as are set before it.
pub proof fn law_stored_values_stand_in_row_order(c: ColumnModel, row: int)
    requires
        sound(c),
        0 <= row < c.min.len(),
    ensures
        ({
            let b = compacted(c);
            let ranges = count(c.stats_valid.take(row)) as int;
            let counts = count(c.present.take(row)) as int;
            &&& b.present == c.present
            &&& b.stats_valid == c.stats_valid
            &&& b.min.len() == count(c.stats_valid)
            &&& b.max.len() == count(c.stats_valid)
            &&& b.row_count.len() == count(c.present)
            &&& b.null_count.len() == count(c.present)
            &&& c.stats_valid[row] ==> ranges < b.min.len() && c.min[row] == Some(b.min[ranges])
                && c.max[row] == Some(b.max[ranges])
            &&& c.present[row] ==> counts < b.row_count.len() && c.row_count[row]
                == b.row_count[counts] && c.null_count[row] == b.null_count[counts]
        }),
{
    let n = c.min.len() as int;
    lemma_picked(bounds(c.min), c.stats_valid, n);
    lemma_picked(bounds(c.max), c.stats_valid, n);
    lemma_picked(c.row_count, c.present, n);
    lemma_picked(c.null_count, c.present, n);
    lemma_set_below_counts(c.stats_valid, row);
    lemma_set_below_counts(c.present, row);
    lemma_set_below_counts(c.stats_valid, n);
    lemma_set_below_counts(c.present, n);
    assert(c.stats_valid.take(n) =~= c.stats_valid);
    assert(c.present.take(n) =~= c.present);
    assert(flag(c.stats_valid, row) == c.stats_valid[row]);
    assert(flag(c.present, row) == c.present[row]);
    assert(c.stats_valid[row] <==> c.min[row] is Some);
}

proof fn lemma_set_below_counts(flags: Seq<bool>, n: int)
    requires
        0 <= n <= flags.len(),
    ensures
        set_below(flags, n) == count(flags.take(n)),
    decreases n,
{
    if n > 0 {
        lemma_set_below_counts(flags, n - 1);
        assert(flags.take(n).drop_last() =~= flags.take(n - 1));
    } else {
        assert(flags.take(0) =~= Seq::empty());
    }
}

/// The ranges handed out are those of the columns that were asked for and are
/// in the file, in the order of the request. Each is where the first entry of
/// its column says.
pub proof fn law_ranges_are_those_that_were_asked_for(
    entries: Seq<EntryModel>,
    wanted: Seq<ColumnKey<Seq<char>>>,
    key: ColumnKey<Seq<char>>,
    i: int,
)
    requires
        entry_at(entries, key, i),
        entries[i].offset + entries[i].len <= u64::MAX,
    ensures
        ranges_of(entries, wanted.push(key)) == ranges_of(entries, wanted).push(
            (key, entries[i].offset, (entries[i].offset + entries[i].len) as u64),
        ),
        forall|other: ColumnKey<Seq<char>>|
            (forall|j: int| 0 <= j < entries.len() ==> (#[trigger] entries[j]).key != other)
                ==> #[trigger] ranges_of(entries, wanted.push(other)) == ranges_of(entries, wanted),
{
    assert(wanted.push(key).drop_last() =~= wanted);
    assert(entries[i].key == key);
    let k = choose|k: int| entry_at(entries, key, k);
    assert(entry_at(entries, key, k));
    if k < i {
        assert(entries[k].key != key);
    } else if i < k {
        assert(entries[i].key != key);
    }
    assert forall|other: ColumnKey<Seq<char>>|
        (forall|j: int| 0 <= j < entries.len() ==> (#[trigger] entries[j]).key
            != other) implies #[trigger] ranges_of(entries, wanted.push(other)) == ranges_of(
        entries,
        wanted,
    ) by {
        assert(wanted.push(other).drop_last() =~= wanted);
    }
}

/// The last bytes of a file are the length of its footer, in eight bytes of
/// which the first counts ones, and the magic `APRN`. Its first bytes are the
/// magic and the version.
pub proof fn law_an_image_is_marked_at_both_ends(footer: Seq<u8>)
    requires
        footer.len() <= u64::MAX,
    ensures
        ({
            let tail = image_tail(footer);
            let n = footer.len() as int;
            &&& tail.len() == n + 12
            &&& tail.take(n) == footer
            &&& le_value(tail.subrange(n, n + 8)) == n
            &&& tail.skip(n + 8) == seq![65u8, 80u8, 82u8, 78u8]
        }),
        image_header().take(4) == seq![65u8, 80u8, 82u8, 78u8],
        le_value(image_header().skip(4)) == 1,
        image_header().len() == 8,
{
    lemma_le_ranges();
    lemma_le_bytes_len(footer.len(), 8);
    law_le_roundtrip(footer.len(), 8);
    lemma_le_bytes_len(PRUNING_FORMAT_VERSION as nat, 4);
    law_le_roundtrip(PRUNING_FORMAT_VERSION as nat, 4);
    let tail = image_tail(footer);
    let n = footer.len() as int;
    assert(tail.take(n) =~= footer);
    assert(tail.subrange(n, n + 8) =~= le_bytes(footer.len(), 8));
    assert(tail.skip(n + 8) =~= index_magic());
    assert(image_header().take(4) =~= index_magic());
    assert(image_header().skip(4) =~= le_bytes(PRUNING_FORMAT_VERSION as nat, 4));
}

/// What the last bytes of a file say of its footer: it ends just before the
/// trailer and is as long as the trailer says. Where the bytes at hand do not
/// reach back to its start, more are asked for, and never more than the file
/// has. Without the magic at the end there is no footer.
pub proof fn law_a_footer_is_as_long_as_the_trailer_says(suffix: Seq<u8>, file_len: u64)
    requires
        suffix.len() <= usize::MAX,
    ensures
        suffix.len() < TRAILER_SIZE ==> footer_span(suffix, file_len) is Err,
        suffix.len() >= TRAILER_SIZE ==> {
            let n = suffix.len() as int;
            let size = le_value(suffix.subrange(n - TRAILER_SIZE, n - TRAILER_SIZE + 8));
            let marked = suffix[n - 4] == 65 && suffix[n - 3] == 80 && suffix[n - 2] == 82
                && suffix[n - 1] == 78;
            &&& !marked ==> footer_span(suffix, file_len) is Err
            &&& marked && size + TRAILER_SIZE <= n ==> footer_span(suffix, file_len) is Ok
            &&& footer_span(suffix, file_len) matches Ok(FooterRead::Footer { start, end }) ==> {
                &&& end == n - TRAILER_SIZE
                &&& end - start == size
            }
            &&& footer_span(suffix, file_len) matches Ok(FooterRead::NeedMore(more)) ==> {
                &&& more == size + TRAILER_SIZE
                &&& n < more <= file_len
            }
        },
{
    if suffix.len() >= TRAILER_SIZE {
        let n = suffix.len() as int;
        let part = suffix.skip(n - 4);
        assert(part[0] == suffix[n - 4] && part[1] == suffix[n - 3] && part[2] == suffix[n - 2]
            && part[3] == suffix[n - 1]);
        if part[0] == 65 && part[1] == 80 && part[2] == 82 && part[3] == 78 {
            assert(part =~= index_magic());
        }
    }
}

} // verus!
