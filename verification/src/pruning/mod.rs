//! The collection-wide pruning index: a flattened, columnar view of every
//! array's and attribute's statistics across all datasets.
//!
//! # Row space
//!
//! Row `i` is the dataset at ordinal `i`. Deleted datasets keep their slot and
//! are hidden by the liveness mask, so ordinals never shift. Because rows are
//! positional, an index that drifts out of step with the dataset list does not
//! fail loudly: every row silently means a different dataset. The index
//! footer's epoch guards against that.
//!
//! - [`bitmap`]: the packed row masks
//! - [`value`]: `StatVal` and its ordering
//! - [`column`]: `StatColumn` and the masked `ColumnView`
//! - [`format`]: the `pruning.idx` byte layout

pub mod bitmap;
pub mod column;
pub mod format;
pub mod value;

use crate::format::pool::{lemma_first_at, place};
use crate::notation::words::{quote, quoted};
use crate::pruning::column::{
    absent_rows, aligned, law_columns_stay_sound, sound, with_present, with_row_cleared, with_rows,
    with_stats, ColumnModel, ColumnView, StatColumn,
};
use crate::stats::{stat_model, ArrayStats};
use crate::text::same_text;
use vstd::prelude::*;

verus! {

/// Which array or attribute a column describes. `T` is the form of the names:
/// `String` in a value, the characters in a contract.
#[derive(Debug, PartialEq, Eq, Hash)]
pub enum ColumnKey<T = String> {
    /// An array's data statistics.
    Array(T),
    /// A dataset-level attribute.
    GlobalAttr(T),
    /// A per-variable attribute, as `(array, key)`.
    ArrayAttr(T, T),
}

impl View for ColumnKey<String> {
    type V = ColumnKey<Seq<char>>;

    open spec fn view(&self) -> ColumnKey<Seq<char>> {
        match *self {
            ColumnKey::Array(n) => ColumnKey::Array(n@),
            ColumnKey::GlobalAttr(k) => ColumnKey::GlobalAttr(k@),
            ColumnKey::ArrayAttr(a, k) => ColumnKey::ArrayAttr(a@, k@),
        }
    }
}

impl Clone for ColumnKey<String> {
    fn clone(&self) -> (copy: Self)
        ensures
            copy@ == self@,
    {
        match self {
            ColumnKey::Array(n) => ColumnKey::Array(n.clone()),
            ColumnKey::GlobalAttr(k) => ColumnKey::GlobalAttr(k.clone()),
            ColumnKey::ArrayAttr(a, k) => ColumnKey::ArrayAttr(a.clone(), k.clone()),
        }
    }
}

/// The label of a column: the array or attribute name, or `array:key` for a
/// per-variable attribute.
pub open spec fn label_of(key: ColumnKey<Seq<char>>) -> Seq<char> {
    match key {
        ColumnKey::Array(n) => n,
        ColumnKey::GlobalAttr(k) => k,
        ColumnKey::ArrayAttr(a, k) => a + ":"@ + k,
    }
}

/// The text that shows a key in a report: its form, and its names in quotes.
pub open spec fn key_shown(key: ColumnKey<Seq<char>>) -> Seq<char> {
    match key {
        ColumnKey::Array(n) => "Array("@ + quoted(n) + ")"@,
        ColumnKey::GlobalAttr(k) => "GlobalAttr("@ + quoted(k) + ")"@,
        ColumnKey::ArrayAttr(a, k) => "ArrayAttr("@ + quoted(a) + ", "@ + quoted(k) + ")"@,
    }
}

impl ColumnKey {
    /// An array column.
    pub fn array(name: &str) -> (key: Self)
        ensures
            key@ == ColumnKey::Array(name@),
    {
        ColumnKey::Array(name.to_owned())
    }

    /// A dataset-level attribute column.
    pub fn global_attr(key: &str) -> (column: Self)
        ensures
            column@ == ColumnKey::GlobalAttr(key@),
    {
        ColumnKey::GlobalAttr(key.to_owned())
    }

    /// A per-variable attribute column.
    pub fn array_attr(array: &str, key: &str) -> (column: Self)
        ensures
            column@ == ColumnKey::ArrayAttr(array@, key@),
    {
        ColumnKey::ArrayAttr(array.to_owned(), key.to_owned())
    }

    /// Whether two keys name the same column.
    pub fn same(&self, other: &ColumnKey) -> (same: bool)
        ensures
            same == (self@ == other@),
    {
        match (self, other) {
            (ColumnKey::Array(a), ColumnKey::Array(b)) => same_text(a.as_str(), b.as_str()),
            (ColumnKey::GlobalAttr(a), ColumnKey::GlobalAttr(b)) => {
                same_text(a.as_str(), b.as_str())
            },
            (ColumnKey::ArrayAttr(a, k), ColumnKey::ArrayAttr(b, l)) => {
                same_text(a.as_str(), b.as_str()) && same_text(k.as_str(), l.as_str())
            },
            _ => false,
        }
    }

    /// The label of the column: the array or attribute name, or `array:key`
    /// for a per-variable attribute.
    pub fn label(&self) -> (label: String)
        ensures
            label@ == label_of(self@),
    {
        match self {
            ColumnKey::Array(n) => n.clone(),
            ColumnKey::GlobalAttr(k) => k.clone(),
            ColumnKey::ArrayAttr(a, k) => {
                let mut label: String = a.clone();
                label.append(":");
                label.append(k.as_str());
                label
            },
        }
    }

    /// The text that shows the key in a report.
    pub fn show(&self) -> (text: String)
        ensures
            text@ == key_shown(self@),
    {
        match self {
            ColumnKey::Array(n) => {
                let mut text: String = "Array(".to_owned();
                text.append(quote(n.as_str()).as_str());
                text.append(")");
                text
            },
            ColumnKey::GlobalAttr(k) => {
                let mut text: String = "GlobalAttr(".to_owned();
                text.append(quote(k.as_str()).as_str());
                text.append(")");
                text
            },
            ColumnKey::ArrayAttr(a, k) => {
                let mut text: String = "ArrayAttr(".to_owned();
                text.append(quote(a.as_str()).as_str());
                text.append(", ");
                text.append(quote(k.as_str()).as_str());
                text.append(")");
                text
            },
        }
    }
}

/// The names of some keys.
pub open spec fn key_models(keys: Seq<ColumnKey>) -> Seq<ColumnKey<Seq<char>>> {
    Seq::new(keys.len(), |i: int| keys[i]@)
}

/// What some columns hold.
pub open spec fn column_models(columns: Seq<StatColumn>) -> Seq<ColumnModel> {
    Seq::new(columns.len(), |i: int| columns[i]@)
}

/// The characters of some optional names.
pub open spec fn name_models(names: Seq<Option<String>>) -> Seq<Option<Seq<char>>> {
    Seq::new(
        names.len(),
        |i: int|
            match names[i] {
                Some(n) => Some(n@),
                None => None,
            },
    )
}

/// The pruning index for a collection: a flat, columnar view of every array's
/// and attribute's statistics across all datasets.
///
/// Reach for [`view`](Self::view) rather than [`column`](Self::column): it
/// applies the liveness mask so deleted and absent rows cannot leak into a
/// result.
#[derive(Debug)]
pub struct PruningIndex {
    rows: usize,
    /// The columns, at the positions of their keys.
    columns: Vec<StatColumn>,
    /// The keys, in the order of insertion.
    order: Vec<ColumnKey>,
    /// Liveness per row slot: `false` where the dataset was deleted.
    live: Vec<bool>,
    /// Dataset name per row slot, `None` for deleted ones.
    dataset_names: Vec<Option<String>>,
    meta_epoch: u64,
}

/// What a pruning index holds.
#[verifier::ext_equal]
pub struct IndexModel {
    /// Row slots covered.
    pub rows: nat,
    /// Column keys, in the order of insertion.
    pub keys: Seq<ColumnKey<Seq<char>>>,
    /// The columns of the keys.
    pub columns: Seq<ColumnModel>,
    /// Liveness per row slot.
    pub live: Seq<bool>,
    /// Dataset name per row slot.
    pub names: Seq<Option<Seq<char>>>,
    /// The metadata epoch the index was built against.
    pub epoch: u64,
}

impl PruningIndex {
    /// What the index holds.
    pub closed spec fn model(&self) -> IndexModel {
        IndexModel {
            rows: self.rows as nat,
            keys: key_models(self.order@),
            columns: column_models(self.columns@),
            live: self.live@,
            names: name_models(self.dataset_names@),
            epoch: self.meta_epoch,
        }
    }
}

/// Every key has its column, no key occurs twice, and every column can be read.
pub open spec fn index_well_formed(m: IndexModel) -> bool {
    &&& m.keys.no_duplicates()
    &&& m.columns.len() == m.keys.len()
    &&& forall|i: int| 0 <= i < m.columns.len() ==> aligned(#[trigger] m.columns[i])
}

/// Every column covers just the rows of the index, and is sound.
pub open spec fn in_step(m: IndexModel) -> bool {
    forall|i: int|
        0 <= i < m.columns.len() ==> sound(#[trigger] m.columns[i]) && m.columns[i].min.len()
            == m.rows
}

/// An index with one column replaced.
pub open spec fn with_column(m: IndexModel, i: int, column: ColumnModel) -> IndexModel {
    IndexModel { columns: m.columns.update(i, column), ..m }
}

/// An index after a column was put under a key: a known key keeps its place,
/// and a new one goes to the end.
pub open spec fn with_inserted(
    m: IndexModel,
    key: ColumnKey<Seq<char>>,
    column: ColumnModel,
) -> IndexModel {
    if m.keys.contains(key) {
        with_column(m, place(m.keys, key), column)
    } else {
        IndexModel { keys: m.keys.push(key), columns: m.columns.push(column), ..m }
    }
}

/// An index after a row was appended: every column gains an absent cell.
pub open spec fn with_row_pushed(m: IndexModel) -> IndexModel {
    IndexModel {
        rows: m.rows + 1,
        columns: Seq::new(m.columns.len(), |i: int| with_rows(m.columns[i], m.rows + 1)),
        ..m
    }
}

/// An index after a row was cleared in every column.
pub open spec fn with_row_reset(m: IndexModel, row: int) -> IndexModel {
    IndexModel {
        columns: Seq::new(m.columns.len(), |i: int| with_row_cleared(m.columns[i], row)),
        ..m
    }
}

/// An index after a column was asked for: a known one is brought to the rows of
/// the index, and a new one starts with every row absent.
pub open spec fn with_ensured(m: IndexModel, key: ColumnKey<Seq<char>>) -> IndexModel {
    if m.keys.contains(key) {
        let i = place(m.keys, key);
        with_column(m, i, with_rows(m.columns[i], m.rows))
    } else {
        with_inserted(m, key, absent_rows(m.rows))
    }
}

/// An index after a row of a column was marked present. An unknown key changes
/// nothing.
pub open spec fn with_marked(m: IndexModel, key: ColumnKey<Seq<char>>, row: int) -> IndexModel {
    if m.keys.contains(key) {
        let i = place(m.keys, key);
        with_column(m, i, with_present(with_rows(m.columns[i], m.rows), row))
    } else {
        m
    }
}

/// Keeping an index in step with its datasets: whatever is done to it, every
/// column still covers just its rows and stays sound.
pub proof fn law_index_stays_in_step(
    m: IndexModel,
    key: ColumnKey<Seq<char>>,
    row: int,
    stats: ArrayStats,
)
    requires
        index_well_formed(m),
        in_step(m),
    ensures
        in_step(with_row_pushed(m)),
        in_step(with_row_reset(m, row)),
        in_step(with_ensured(m, key)),
        in_step(with_marked(m, key, row)),
        in_step(with_cell(m, key, row, stats)),
{
    assert forall|i: int| 0 <= i < m.columns.len() implies {
        let c = #[trigger] m.columns[i];
        &&& sound(with_rows(c, m.rows + 1))
        &&& sound(with_row_cleared(c, row))
        &&& sound(with_rows(c, m.rows))
        &&& sound(with_present(with_rows(c, m.rows), row))
        &&& sound(
            with_stats(
                with_rows(c, m.rows),
                row,
                stat_model(stats.min),
                stat_model(stats.max),
                stats.row_count,
                stats.null_count,
            ),
        )
    } by {
        let c = m.columns[i];
        let none: Option<crate::pruning::value::StatModel> = None;
        law_columns_stay_sound(c, row, none, none, 0, 0, m.rows + 1);
        law_columns_stay_sound(c, row, none, none, 0, 0, m.rows);
        law_columns_stay_sound(
            with_rows(c, m.rows),
            row,
            stat_model(stats.min),
            stat_model(stats.max),
            stats.row_count,
            stats.null_count,
            m.rows,
        );
    }
    let none: Option<crate::pruning::value::StatModel> = None;
    assert(sound(absent_rows(m.rows)));
    if m.keys.contains(key) {
        crate::format::pool::law_interning(m.keys, key, key);
    }
}

/// An index after one cell's statistics were written. An unknown key changes
/// nothing, and neither does a row the index does not cover, beyond bringing
/// the column to its rows.
pub open spec fn with_cell(
    m: IndexModel,
    key: ColumnKey<Seq<char>>,
    row: int,
    stats: ArrayStats,
) -> IndexModel {
    if m.keys.contains(key) {
        let i = place(m.keys, key);
        with_column(
            m,
            i,
            with_stats(
                with_rows(m.columns[i], m.rows),
                row,
                stat_model(stats.min),
                stat_model(stats.max),
                stats.row_count,
                stats.null_count,
            ),
        )
    } else {
        m
    }
}

impl PruningIndex {
    #[verifier::type_invariant]
    spec fn well_formed(self) -> bool {
        index_well_formed(self.model())
    }

    /// An empty index covering no rows.
    pub fn new() -> (index: Self)
        ensures
            index.model().rows == 0,
            index.model().keys.len() == 0,
            index.model().columns.len() == 0,
            index.model().live.len() == 0,
            index.model().names.len() == 0,
            index.model().epoch == 0,
    {
        PruningIndex::with_rows(0)
    }

    /// An index covering `rows` rows, without a column.
    pub fn with_rows(rows: usize) -> (index: Self)
        ensures
            index.model().rows == rows,
            index.model().keys.len() == 0,
            index.model().columns.len() == 0,
            index.model().live.len() == 0,
            index.model().names.len() == 0,
            index.model().epoch == 0,
    {
        PruningIndex {
            rows,
            columns: Vec::new(),
            order: Vec::new(),
            live: Vec::new(),
            dataset_names: Vec::new(),
            meta_epoch: 0,
        }
    }

    fn take(&mut self) -> (whole: Self)
        ensures
            whole == *old(self),
    {
        let mut whole = PruningIndex::new();
        std::mem::swap(self, &mut whole);
        whole
    }

    /// Row slots covered, deleted ones included.
    pub fn rows(&self) -> (rows: usize)
        ensures
            rows == self.model().rows,
    {
        self.rows
    }

    /// The metadata epoch this index was built against.
    pub fn meta_epoch(&self) -> (epoch: u64)
        ensures
            epoch == self.model().epoch,
    {
        self.meta_epoch
    }

    /// Sets the epoch this index corresponds to.
    pub fn set_meta_epoch(&mut self, epoch: u64)
        ensures
            final(self).model() == (IndexModel { epoch, ..old(self).model() }),
    {
        proof {
            use_type_invariant(&*self);
        }
        self.meta_epoch = epoch;
    }

    /// Column keys present in this index, in the order of insertion.
    pub fn column_keys(&self) -> (keys: &[ColumnKey])
        ensures
            key_models(keys@) == self.model().keys,
    {
        self.order.as_slice()
    }

    /// The liveness mask over row slots: `false` where the dataset was deleted.
    pub fn live(&self) -> (live: &[bool])
        ensures
            live@ == self.model().live,
    {
        self.live.as_slice()
    }

    /// Dataset name at each row slot, `None` where the slot is deleted.
    pub fn dataset_names(&self) -> (names: &[Option<String>])
        ensures
            name_models(names@) == self.model().names,
    {
        self.dataset_names.as_slice()
    }

    /// The dataset name at `row`, or `None` if the row is out of range or
    /// deleted.
    pub fn dataset_name(&self, row: usize) -> (name: Option<&str>)
        ensures
            match name {
                Some(n) => row < self.model().names.len() && self.model().names[row as int] == Some(n@),
                None => row >= self.model().names.len() || self.model().names[row as int] is None,
            },
    {
        if row >= self.dataset_names.len() {
            return None;
        }
        match &self.dataset_names[row] {
            Some(n) => Some(n.as_str()),
            None => None,
        }
    }

    fn position(&self, key: &ColumnKey) -> (found: Option<usize>)
        ensures
            match found {
                Some(i) => i < self.model().columns.len() && self.model().keys.contains(key@) && place(
                    self.model().keys,
                    key@,
                ) == i,
                None => !self.model().keys.contains(key@),
            },
            index_well_formed(self.model()),
    {
        proof {
            use_type_invariant(self);
        }
        let mut i: usize = 0;
        while i < self.order.len()
            invariant
                i <= self.order@.len(),
                index_well_formed(self.model()),
                forall|j: int| 0 <= j < i ==> self.model().keys[j] != key@,
            decreases self.order@.len() - i,
        {
            assert(self.model().keys[i as int] == self.order@[i as int]@);
            if self.order[i].same(key) {
                proof {
                    lemma_first_at(self.model().keys, key@, i as int);
                }
                return Some(i);
            }
            i += 1;
        }
        None
    }

    /// A column with the liveness mask applied: the interface to prefer.
    pub fn view(&self, key: &ColumnKey) -> (view: Option<ColumnView<'_>>)
        ensures
            match view {
                Some(v) => {
                    &&& self.model().keys.contains(key@)
                    &&& v.model() == self.model().columns[place(self.model().keys, key@)]
                    &&& v.liveness() == self.model().live
                },
                None => !self.model().keys.contains(key@),
            },
    {
        match self.position(key) {
            Some(i) => {
                assert(aligned(self.model().columns[i as int]));
                Some(ColumnView::new(&self.columns[i], self.live.as_slice()))
            },
            None => None,
        }
    }

    /// The raw column, masks not applied. Prefer [`view`](Self::view).
    pub fn column(&self, key: &ColumnKey) -> (column: Option<&StatColumn>)
        ensures
            match column {
                Some(c) => self.model().keys.contains(key@) && c@ == self.model().columns[place(
                    self.model().keys,
                    key@,
                )],
                None => !self.model().keys.contains(key@),
            },
    {
        match self.position(key) {
            Some(i) => Some(&self.columns[i]),
            None => None,
        }
    }

    /// Sets the liveness mask.
    pub fn set_live(&mut self, live: Vec<bool>)
        ensures
            final(self).model() == (IndexModel { live: live@, ..old(self).model() }),
    {
        proof {
            use_type_invariant(&*self);
        }
        self.live = live;
    }

    /// Attaches dataset names, padded or cut to exactly as many as there are
    /// rows.
    pub fn set_dataset_names(&mut self, names: Vec<Option<String>>)
        ensures
            final(self).model() == (IndexModel {
                names: crate::pruning::column::resized(name_models(names@), old(self).model().rows, None),
                ..old(self).model()
            }),
    {
        let ghost given = name_models(names@);
        let mut list: Vec<Option<String>> = names;
        let rows: usize = self.rows;
        if list.len() > rows {
            list.truncate(rows);
        }
        while list.len() < rows
            invariant
                list@.len() <= rows,
                list@.len() >= given.len() || list@.len() == rows,
                forall|i: int|
                    0 <= i < list@.len() ==> #[trigger] name_models(list@)[i] == (if i
                        < given.len() {
                        given[i]
                    } else {
                        None
                    }),
            decreases rows - list@.len(),
        {
            let ghost before = name_models(list@);
            list.push(None);
            assert(name_models(list@) =~= before.push(None));
        }
        assert(name_models(list@) =~= crate::pruning::column::resized(given, rows as nat, None));
        proof {
            use_type_invariant(&*self);
        }
        self.dataset_names = list;
    }

    /// Puts a column under a key. A known key keeps its place.
    pub fn insert_column(&mut self, key: ColumnKey, column: StatColumn)
        requires
            aligned(column@),
        ensures
            final(self).model() == with_inserted(old(self).model(), key@, column@),
    {
        let ghost before = self.model();
        let at = self.position(&key);
        let whole = self.take();
        let PruningIndex { rows, mut columns, mut order, live, dataset_names, meta_epoch } = whole;
        let ghost text = key@;
        match at {
            Some(i) => {
                columns.set(i, column);
                assert(column_models(columns@) =~= before.columns.update(i as int, column@));
            },
            None => {
                order.push(key);
                columns.push(column);
                assert(key_models(order@) =~= before.keys.push(text));
                assert(column_models(columns@) =~= before.columns.push(column@));
                proof {
                    crate::format::pool::law_interning(before.keys, text, text);
                }
            },
        }
        *self = PruningIndex { rows, columns, order, live, dataset_names, meta_epoch };
        assert(self.model() =~= with_inserted(before, text, column@));
    }

    /// Appends a null row for a newly created dataset.
    ///
    /// Every column gains an absent cell, so the index stays exactly as long as
    /// the dataset list from the moment the dataset exists.
    pub fn push_row(&mut self) -> (row: usize)
        requires
            old(self).model().rows < usize::MAX,
        ensures
            row == old(self).model().rows,
            final(self).model() == with_row_pushed(old(self).model()),
    {
        let ghost before = self.model();
        let whole = self.take();
        proof {
            use_type_invariant(&whole);
        }
        let PruningIndex { rows, mut columns, order, live, dataset_names, meta_epoch } = whole;
        let mut i: usize = 0;
        while i < columns.len()
            invariant
                i <= columns@.len(),
                columns@.len() == before.columns.len(),
                before.rows == rows,
                rows < usize::MAX,
                forall|j: int|
                    0 <= j < i ==> (#[trigger] columns@[j])@ == with_rows(
                        before.columns[j],
                        before.rows + 1,
                    ),
                forall|j: int|
                    i <= j < columns@.len() ==> (#[trigger] columns@[j])@ == before.columns[j],
            decreases columns@.len() - i,
        {
            let ghost held = columns@;
            columns[i].resize(rows + 1);
            assert forall|j: int| 0 <= j < columns@.len() && j != i implies columns@[j] == held[
            j] by {}
            i += 1;
        }
        assert(column_models(columns@) =~= with_row_pushed(before).columns);
        *self = PruningIndex {
            rows: rows + 1,
            columns,
            order,
            live,
            dataset_names,
            meta_epoch,
        };
        assert(self.model() =~= with_row_pushed(before));
        rows
    }

    /// Clears a row, for a slot being used again by a new dataset.
    pub fn reset_row(&mut self, row: usize)
        ensures
            final(self).model() == with_row_reset(old(self).model(), row as int),
    {
        let ghost before = self.model();
        let whole = self.take();
        proof {
            use_type_invariant(&whole);
        }
        let PruningIndex { rows, mut columns, order, live, dataset_names, meta_epoch } = whole;
        let mut i: usize = 0;
        while i < columns.len()
            invariant
                i <= columns@.len(),
                columns@.len() == before.columns.len(),
                index_well_formed(before),
                forall|j: int|
                    0 <= j < i ==> (#[trigger] columns@[j])@ == with_row_cleared(
                        before.columns[j],
                        row as int,
                    ),
                forall|j: int|
                    i <= j < columns@.len() ==> (#[trigger] columns@[j])@ == before.columns[j],
            decreases columns@.len() - i,
        {
            let ghost held = columns@;
            assert(aligned(before.columns[i as int]));
            columns[i].clear_row(row);
            assert forall|j: int| 0 <= j < columns@.len() && j != i implies columns@[j] == held[
            j] by {}
            i += 1;
        }
        assert(column_models(columns@) =~= with_row_reset(before, row as int).columns);
        assert forall|j: int| 0 <= j < before.columns.len() implies aligned(
            #[trigger] with_row_reset(before, row as int).columns[j],
        ) by {
            assert(aligned(before.columns[j]));
        }
        *self = PruningIndex { rows, columns, order, live, dataset_names, meta_epoch };
        assert(self.model() =~= with_row_reset(before, row as int));
    }

    fn change_column(&mut self, i: usize, column: StatColumn)
        requires
            i < old(self).model().columns.len(),
            aligned(column@),
        ensures
            final(self).model() == with_column(old(self).model(), i as int, column@),
    {
        let ghost before = self.model();
        let whole = self.take();
        proof {
            use_type_invariant(&whole);
        }
        let PruningIndex { rows, mut columns, order, live, dataset_names, meta_epoch } = whole;
        columns.set(i, column);
        assert(column_models(columns@) =~= before.columns.update(i as int, column@));
        *self = PruningIndex { rows, columns, order, live, dataset_names, meta_epoch };
        assert(self.model() =~= with_column(before, i as int, column@));
    }

    fn column_at(&mut self, i: usize) -> (column: StatColumn)
        requires
            i < old(self).model().columns.len(),
        ensures
            column@ == with_rows(old(self).model().columns[i as int], old(self).model().rows),
            final(self).model().rows == old(self).model().rows,
            final(self).model().keys == old(self).model().keys,
            final(self).model().live == old(self).model().live,
            final(self).model().names == old(self).model().names,
            final(self).model().epoch == old(self).model().epoch,
            final(self).model().columns.len() == old(self).model().columns.len(),
            forall|j: int|
                0 <= j < old(self).model().columns.len() && j != i ==> #[trigger] final(self).model().columns[j]
                    == old(self).model().columns[j],
    {
        let ghost before = self.model();
        let whole = self.take();
        proof {
            use_type_invariant(&whole);
        }
        let PruningIndex { rows, mut columns, order, live, dataset_names, meta_epoch } = whole;
        let mut column = StatColumn::new(0);
        std::mem::swap(&mut columns[i], &mut column);
        assert(column_models(columns@) =~= before.columns.update(i as int, absent_rows(0)));
        *self = PruningIndex { rows, columns, order, live, dataset_names, meta_epoch };
        column.resize(rows);
        column
    }

    /// Ensures a column exists, back-filled as absent for every existing row.
    pub fn ensure_column(&mut self, key: &ColumnKey)
        ensures
            final(self).model() == with_ensured(old(self).model(), key@),
    {
        let ghost before = self.model();
        match self.position(key) {
            Some(i) => {
                let column = self.column_at(i);
                self.change_column(i, column);
                assert(self.model() =~= with_ensured(before, key@));
            },
            None => {
                let column = StatColumn::new(self.rows);
                self.insert_column(key.clone(), column);
            },
        }
    }

    /// Marks that the dataset at `row` declares this array or attribute.
    pub fn set_present(&mut self, key: &ColumnKey, row: usize)
        ensures
            final(self).model() == with_marked(old(self).model(), key@, row as int),
    {
        let ghost before = self.model();
        match self.position(key) {
            Some(i) => {
                let mut column = self.column_at(i);
                column.mark_present(row);
                self.change_column(i, column);
                assert(self.model() =~= with_marked(before, key@, row as int));
            },
            None => {},
        }
    }

    /// Writes one cell's statistics.
    ///
    /// `min` and `max` are stored in whatever type the source statistic used.
    /// `stats_valid` stays unset when the source has no range at all.
    pub fn set_stats(&mut self, key: &ColumnKey, row: usize, stats: &ArrayStats)
        ensures
            final(self).model() == with_cell(old(self).model(), key@, row as int, *stats),
    {
        let ghost before = self.model();
        match self.position(key) {
            Some(i) => {
                let mut column = self.column_at(i);
                column.set_stats(row, stats);
                self.change_column(i, column);
                assert(self.model() =~= with_cell(before, key@, row as int, *stats));
            },
            None => {},
        }
    }
}

/// The statistics of a dataset are written into the column of their key at the
/// row of the dataset, and read back there. No other row and no other column
/// changes, and neither do the keys.
pub proof fn law_cells_are_written_where_they_belong(
    m: IndexModel,
    i: int,
    row: int,
    stats: ArrayStats,
    other: int,
    column: int,
)
    requires
        index_well_formed(m),
        in_step(m),
        0 <= i < m.keys.len(),
        0 <= column < m.keys.len(),
        column != i,
        0 <= row < m.rows,
        0 <= other < m.rows,
        other != row,
    ensures
        ({
            let after = with_cell(m, m.keys[i], row, stats);
            let c = after.columns[i];
            let before = m.columns[i];
            &&& after.keys == m.keys
            &&& after.rows == m.rows
            &&& after.live == m.live
            &&& after.names == m.names
            &&& after.epoch == m.epoch
            &&& after.columns[column] == m.columns[column]
            &&& c.present[row]
            &&& c.row_count[row] == stats.row_count
            &&& c.null_count[row] == stats.null_count
            &&& stats.min is Some && stats.max is Some ==> c.min[row] == Some(stats.min.unwrap()@)
                && c.max[row] == Some(stats.max.unwrap()@)
            &&& c.present[other] == before.present[other]
            &&& c.min[other] == before.min[other]
            &&& c.max[other] == before.max[other]
            &&& c.row_count[other] == before.row_count[other]
            &&& c.null_count[other] == before.null_count[other]
        }),
        ({
            let marked = with_marked(m, m.keys[i], row);
            &&& marked.keys == m.keys
            &&& marked.columns[column] == m.columns[column]
            &&& marked.columns[i].present[row]
            &&& marked.columns[i].present[other] == m.columns[i].present[other]
            &&& marked.columns[i].min == m.columns[i].min
            &&& marked.columns[i].row_count == m.columns[i].row_count
        }),
{
    let key = m.keys[i];
    crate::format::pool::law_interning(m.keys, key, key);
    assert(place(m.keys, key) == i);
    let c = m.columns[i];
    assert(sound(c) && c.min.len() == m.rows);
    assert(with_rows(c, m.rows) =~= c);
}

/// A column that is asked for is there, whether it was or not. A new one is
/// absent at every row and comes last; no other column changes.
pub proof fn law_ensured_columns_are_there(
    m: IndexModel,
    key: ColumnKey<Seq<char>>,
    row: int,
    i: int,
)
    requires
        index_well_formed(m),
        in_step(m),
        0 <= row < m.rows,
        0 <= i < m.keys.len(),
    ensures
        ({
            let after = with_ensured(m, key);
            &&& after.keys.contains(key)
            &&& after.keys[i] == m.keys[i]
            &&& after.columns[i] == m.columns[i]
            &&& m.keys.contains(key) ==> after.keys == m.keys
            &&& !m.keys.contains(key) ==> after.keys == m.keys.push(key) && after.columns.len()
                == m.columns.len() + 1 && !after.columns.last().present[row]
                && after.columns.last().min[row] is None && after.columns.last().row_count[row] == 0
        }),
{
    assert(sound(m.columns[i]) && m.columns[i].min.len() == m.rows);
    assert(with_rows(m.columns[i], m.rows) =~= m.columns[i]);
    if m.keys.contains(key) {
        crate::format::pool::law_interning(m.keys, key, key);
        let at = place(m.keys, key);
        assert(sound(m.columns[at]) && m.columns[at].min.len() == m.rows);
        assert(with_rows(m.columns[at], m.rows) =~= m.columns[at]);
    } else {
        assert(m.keys.push(key)[m.keys.len() as int] == key);
    }
}

/// A dataset more is a row more: it is absent from every column, and every
/// other row stays. A row that is reset is absent from every column, and every
/// other row stays.
pub proof fn law_rows_are_added_and_reset_one_at_a_time(
    m: IndexModel,
    i: int,
    row: int,
    other: int,
)
    requires
        index_well_formed(m),
        in_step(m),
        0 <= i < m.columns.len(),
        0 <= row < m.rows,
        0 <= other < m.rows,
        other != row,
    ensures
        ({
            let more = with_row_pushed(m);
            let c = more.columns[i];
            &&& more.rows == m.rows + 1
            &&& more.keys == m.keys
            &&& !c.present[m.rows as int]
            &&& c.min[m.rows as int] is None
            &&& c.row_count[m.rows as int] == 0
            &&& c.present[row] == m.columns[i].present[row]
            &&& c.min[row] == m.columns[i].min[row]
            &&& c.max[row] == m.columns[i].max[row]
            &&& c.row_count[row] == m.columns[i].row_count[row]
            &&& c.null_count[row] == m.columns[i].null_count[row]
        }),
        ({
            let reset = with_row_reset(m, row);
            let c = reset.columns[i];
            &&& reset.rows == m.rows
            &&& reset.keys == m.keys
            &&& !c.present[row]
            &&& c.min[row] is None
            &&& c.max[row] is None
            &&& c.row_count[row] == 0
            &&& c.null_count[row] == 0
            &&& c.present[other] == m.columns[i].present[other]
            &&& c.min[other] == m.columns[i].min[other]
            &&& c.max[other] == m.columns[i].max[other]
            &&& c.row_count[other] == m.columns[i].row_count[other]
            &&& c.null_count[other] == m.columns[i].null_count[other]
        }),
{
    assert(sound(m.columns[i]) && m.columns[i].min.len() == m.rows);
}

/// A column that is put under a key is found there, and every other column
/// stays where it is.
pub proof fn law_inserted_columns_are_found(
    m: IndexModel,
    key: ColumnKey<Seq<char>>,
    column: ColumnModel,
    i: int,
)
    requires
        index_well_formed(m),
        0 <= i < m.keys.len(),
    ensures
        ({
            let after = with_inserted(m, key, column);
            &&& exists|k: int|
                0 <= k < after.keys.len() && #[trigger] after.keys[k] == key && after.columns[k]
                    == column
            &&& after.keys[i] == m.keys[i]
            &&& m.keys[i] != key ==> after.columns[i] == m.columns[i]
            &&& after.rows == m.rows
        }),
{
    let after = with_inserted(m, key, column);
    if m.keys.contains(key) {
        crate::format::pool::law_interning(m.keys, key, key);
        let at = place(m.keys, key);
        assert(after.keys[at] == key && after.columns[at] == column);
    } else {
        let at = m.keys.len() as int;
        assert(after.keys[at] == key && after.columns[at] == column);
    }
}

/// The label of a column is the name of the array or of the attribute. Where the
/// attribute is one of an array, the array's name and a colon stand in front.
pub proof fn law_labels_end_with_the_name(array: Seq<char>, key: Seq<char>)
    ensures
        label_of(ColumnKey::Array(array)) == array,
        label_of(ColumnKey::GlobalAttr(key)) == key,
        ({
            let label = label_of(ColumnKey::ArrayAttr(array, key));
            &&& label.len() == array.len() + 1 + key.len()
            &&& label.take(array.len() as int) == array
            &&& label[array.len() as int] == ':'
            &&& label.skip(array.len() as int + 1) == key
        }),
{
    reveal_strlit(":");
    let label = label_of(ColumnKey::ArrayAttr(array, key));
    assert(label.take(array.len() as int) =~= array);
    assert(label.skip(array.len() as int + 1) =~= key);
}

} // verus!
