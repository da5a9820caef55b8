//! One column of the flattened index, and the safe view over it.

use crate::pruning::bitmap::{count, flag, Bitmap};
use crate::pruning::value::{
    alike, larger, law_values_of_one_variant_are_totally_ordered, lesser, StatModel, StatVal,
};
use crate::stats::{at_most, below_or_equal, copy_stat, stat_model, ArrayStats};
use vstd::prelude::*;

verus! {

/// One array's or attribute's statistics across the whole collection.
///
/// Every vector is dense, indexed directly by row ordinal. The column stores no
/// type: `min` and `max` keep the type the source statistic used.
///
/// When reading row by row, prefer [`ColumnView`], which applies the masks.
#[derive(Debug, PartialEq, Eq)]
pub struct StatColumn {
    /// Whether the dataset at this row declares the array or attribute.
    pub present: Bitmap,
    /// Whether `min` and `max` are meaningful here. Unset for rows without
    /// statistics and for types that have none.
    pub stats_valid: Bitmap,
    /// Per-row minimum; `None` wherever `stats_valid` is unset.
    pub min: Vec<Option<StatVal>>,
    /// Per-row maximum; `None` wherever `stats_valid` is unset.
    pub max: Vec<Option<StatVal>>,
    /// Per-row element count. Zero where the dataset does not declare it.
    pub row_count: Vec<u64>,
    /// Per-row null count. Zero where the dataset does not declare it.
    pub null_count: Vec<u64>,
}

/// What a column holds.
#[verifier::ext_equal]
pub struct ColumnModel {
    /// Whether the dataset at each row declares the array or attribute.
    pub present: Seq<bool>,
    /// Whether each row has a usable range.
    pub stats_valid: Seq<bool>,
    /// Per-row minimum.
    pub min: Seq<Option<StatModel>>,
    /// Per-row maximum.
    pub max: Seq<Option<StatModel>>,
    /// Per-row element count.
    pub row_count: Seq<u64>,
    /// Per-row null count.
    pub null_count: Seq<u64>,
}

/// What some optional values are.
pub open spec fn stat_models(values: Seq<Option<StatVal>>) -> Seq<Option<StatModel>> {
    Seq::new(values.len(), |i: int| stat_model(values[i]))
}

impl View for StatColumn {
    type V = ColumnModel;

    open spec fn view(&self) -> ColumnModel {
        ColumnModel {
            present: self.present@,
            stats_valid: self.stats_valid@,
            min: stat_models(self.min@),
            max: stat_models(self.max@),
            row_count: self.row_count@,
            null_count: self.null_count@,
        }
    }
}

/// The values of a column are all there, for the same rows.
pub open spec fn aligned(c: ColumnModel) -> bool {
    &&& c.max.len() == c.min.len()
    &&& c.row_count.len() == c.min.len()
    &&& c.null_count.len() == c.min.len()
}

/// A column as the library builds it: its masks cover just its rows, a row has
/// a range exactly where it is marked so, and then it is present, and a row
/// that is not present counts nothing.
pub open spec fn sound(c: ColumnModel) -> bool {
    &&& aligned(c)
    &&& c.present.len() == c.min.len()
    &&& c.stats_valid.len() == c.min.len()
    &&& forall|i: int|
        0 <= i < c.min.len() ==> {
            &&& (#[trigger] c.stats_valid[i] <==> c.min[i] is Some)
            &&& (c.stats_valid[i] <==> c.max[i] is Some)
            &&& (c.stats_valid[i] ==> c.present[i])
            &&& (!c.present[i] ==> c.row_count[i] == 0 && c.null_count[i] == 0)
        }
}

/// A column of absent rows.
pub open spec fn absent_rows(rows: nat) -> ColumnModel {
    ColumnModel {
        present: Seq::new(rows, |i: int| false),
        stats_valid: Seq::new(rows, |i: int| false),
        min: Seq::new(rows, |i: int| None),
        max: Seq::new(rows, |i: int| None),
        row_count: Seq::new(rows, |i: int| 0u64),
        null_count: Seq::new(rows, |i: int| 0u64),
    }
}

/// Flags after one was set; a position outside is ignored.
pub open spec fn with_flag(flags: Seq<bool>, i: int, value: bool) -> Seq<bool> {
    if 0 <= i < flags.len() {
        flags.update(i, value)
    } else {
        flags
    }
}

/// A column after a row was marked present.
pub open spec fn with_present(c: ColumnModel, row: int) -> ColumnModel {
    ColumnModel { present: with_flag(c.present, row, true), ..c }
}

/// A column after the statistics of a row were written. Without a range only
/// the counts stand.
pub open spec fn with_stats(
    c: ColumnModel,
    row: int,
    min: Option<StatModel>,
    max: Option<StatModel>,
    row_count: u64,
    null_count: u64,
) -> ColumnModel {
    if 0 <= row < c.min.len() {
        let ranged = min is Some && max is Some;
        ColumnModel {
            present: with_flag(c.present, row, true),
            stats_valid: with_flag(c.stats_valid, row, ranged),
            min: c.min.update(
                row,
                if ranged {
                    min
                } else {
                    None
                },
            ),
            max: c.max.update(
                row,
                if ranged {
                    max
                } else {
                    None
                },
            ),
            row_count: c.row_count.update(row, row_count),
            null_count: c.null_count.update(row, null_count),
        }
    } else {
        c
    }
}

/// A column after a row was cleared.
pub open spec fn with_row_cleared(c: ColumnModel, row: int) -> ColumnModel {
    if 0 <= row < c.min.len() {
        ColumnModel {
            present: with_flag(c.present, row, false),
            stats_valid: with_flag(c.stats_valid, row, false),
            min: c.min.update(row, None),
            max: c.max.update(row, None),
            row_count: c.row_count.update(row, 0u64),
            null_count: c.null_count.update(row, 0u64),
        }
    } else {
        c
    }
}

/// A list brought to a length: cut, or filled up.
pub open spec fn resized<T>(list: Seq<T>, len: nat, fill: T) -> Seq<T> {
    Seq::new(
        len,
        |i: int|
            if i < list.len() {
                list[i]
            } else {
                fill
            },
    )
}

/// Flags grown to a length with unset ones.
pub open spec fn grown(flags: Seq<bool>, len: nat) -> Seq<bool> {
    if flags.len() < len {
        resized(flags, len, false)
    } else {
        flags
    }
}

/// A column brought to a number of rows. New rows are absent.
pub open spec fn with_rows(c: ColumnModel, rows: nat) -> ColumnModel {
    ColumnModel {
        present: grown(c.present, rows),
        stats_valid: grown(c.stats_valid, rows),
        min: resized(c.min, rows, None),
        max: resized(c.max, rows, None),
        row_count: resized(c.row_count, rows, 0u64),
        null_count: resized(c.null_count, rows, 0u64),
    }
}

/// Every way of changing a column keeps it sound.
pub proof fn law_columns_stay_sound(
    c: ColumnModel,
    row: int,
    min: Option<StatModel>,
    max: Option<StatModel>,
    row_count: u64,
    null_count: u64,
    rows: nat,
)
    requires
        sound(c),
    ensures
        sound(absent_rows(rows)),
        sound(with_present(c, row)),
        sound(with_stats(c, row, min, max, row_count, null_count)),
        sound(with_row_cleared(c, row)),
        rows >= c.min.len() ==> sound(with_rows(c, rows)),
{
    let a = with_stats(c, row, min, max, row_count, null_count);
    assert forall|i: int| 0 <= i < a.min.len() implies {
        &&& (#[trigger] a.stats_valid[i] <==> a.min[i] is Some)
        &&& (a.stats_valid[i] <==> a.max[i] is Some)
        &&& (a.stats_valid[i] ==> a.present[i])
        &&& (!a.present[i] ==> a.row_count[i] == 0 && a.null_count[i] == 0)
    } by {
        if i != row {
            assert(c.stats_valid[i] <==> c.min[i] is Some);
        }
    }
    let b = with_row_cleared(c, row);
    assert forall|i: int| 0 <= i < b.min.len() implies {
        &&& (#[trigger] b.stats_valid[i] <==> b.min[i] is Some)
        &&& (b.stats_valid[i] <==> b.max[i] is Some)
        &&& (b.stats_valid[i] ==> b.present[i])
        &&& (!b.present[i] ==> b.row_count[i] == 0 && b.null_count[i] == 0)
    } by {
        if i != row {
            assert(c.stats_valid[i] <==> c.min[i] is Some);
        }
    }
    let p = with_present(c, row);
    assert forall|i: int| 0 <= i < p.min.len() implies {
        &&& (#[trigger] p.stats_valid[i] <==> p.min[i] is Some)
        &&& (p.stats_valid[i] <==> p.max[i] is Some)
        &&& (p.stats_valid[i] ==> p.present[i])
        &&& (!p.present[i] ==> p.row_count[i] == 0 && p.null_count[i] == 0)
    } by {
        assert(c.stats_valid[i] <==> c.min[i] is Some);
    }
    if rows >= c.min.len() {
        let r = with_rows(c, rows);
        assert forall|i: int| 0 <= i < r.min.len() implies {
            &&& (#[trigger] r.stats_valid[i] <==> r.min[i] is Some)
            &&& (r.stats_valid[i] <==> r.max[i] is Some)
            &&& (r.stats_valid[i] ==> r.present[i])
            &&& (!r.present[i] ==> r.row_count[i] == 0 && r.null_count[i] == 0)
        } by {
            if i < c.min.len() {
                assert(c.stats_valid[i] <==> c.min[i] is Some);
            }
        }
    }
}

/// A cleared row shows nothing of what it held, and other rows stay.
pub proof fn law_cleared_row_is_absent(c: ColumnModel, row: int, other: int)
    requires
        sound(c),
        0 <= row < c.min.len(),
        0 <= other < c.min.len(),
        other != row,
    ensures
        !with_row_cleared(c, row).present[row],
        !with_row_cleared(c, row).stats_valid[row],
        with_row_cleared(c, row).min[row] is None,
        with_row_cleared(c, row).max[row] is None,
        with_row_cleared(c, row).row_count[row] == 0,
        with_row_cleared(c, row).null_count[row] == 0,
        with_row_cleared(c, row).present[other] == c.present[other],
        with_row_cleared(c, row).min[other] == c.min[other],
        with_row_cleared(c, row).max[other] == c.max[other],
        with_row_cleared(c, row).row_count[other] == c.row_count[other],
        with_row_cleared(c, row).null_count[other] == c.null_count[other],
{
}

/// The dataset at a row exists and declares the array or attribute.
pub open spec fn shown(c: ColumnModel, live: Seq<bool>, row: int) -> bool {
    flag(live, row) && flag(c.present, row)
}

/// As [`shown`], and the range of the row is usable.
pub open spec fn ranged(c: ColumnModel, live: Seq<bool>, row: int) -> bool {
    shown(c, live, row) && flag(c.stats_valid, row)
}

/// What a column's collection-wide range is.
#[verifier::ext_equal]
pub struct SummaryModel {
    /// Smallest minimum across live rows.
    pub min: Option<StatModel>,
    /// Largest maximum across live rows.
    pub max: Option<StatModel>,
    /// How many live rows declare the array or attribute.
    pub present_count: nat,
}

/// The smaller of a minimum so far and the minimum of a row.
pub open spec fn lesser_so_far(so_far: Option<StatModel>, v: Option<StatModel>) -> Option<
    StatModel,
> {
    match (so_far, v) {
        (_, None) => so_far,
        (None, Some(x)) => Some(x),
        (Some(m), Some(x)) => Some(lesser(m, x)),
    }
}

/// The larger of a maximum so far and the maximum of a row.
pub open spec fn larger_so_far(so_far: Option<StatModel>, v: Option<StatModel>) -> Option<
    StatModel,
> {
    match (so_far, v) {
        (_, None) => so_far,
        (None, Some(x)) => Some(x),
        (Some(m), Some(x)) => Some(larger(m, x)),
    }
}

/// The summary of the live rows among the first `n`.
pub open spec fn summary_of(c: ColumnModel, live: Seq<bool>, n: int) -> SummaryModel
    decreases n,
{
    if n <= 0 {
        SummaryModel { min: None, max: None, present_count: 0 }
    } else {
        let s = summary_of(c, live, n - 1);
        let row = n - 1;
        if !shown(c, live, row) {
            s
        } else if !ranged(c, live, row) {
            SummaryModel { present_count: s.present_count + 1, ..s }
        } else {
            SummaryModel {
                min: lesser_so_far(s.min, c.min[row]),
                max: larger_so_far(s.max, c.max[row]),
                present_count: s.present_count + 1,
            }
        }
    }
}

/// A summary depends on the live rows alone: what a deleted dataset holds
/// cannot widen it.
pub proof fn law_summary_ignores_deleted_rows(
    a: ColumnModel,
    b: ColumnModel,
    live: Seq<bool>,
    n: int,
)
    requires
        forall|i: int|
            0 <= i < n && #[trigger] flag(live, i) ==> {
                &&& flag(a.present, i) == flag(b.present, i)
                &&& flag(a.stats_valid, i) == flag(b.stats_valid, i)
                &&& a.min[i] == b.min[i]
                &&& a.max[i] == b.max[i]
            },
    ensures
        summary_of(a, live, n) == summary_of(b, live, n),
    decreases n,
{
    if n > 0 {
        law_summary_ignores_deleted_rows(a, b, live, n - 1);
    }
}

/// Every usable bound of the live rows is of one variant.
pub open spec fn one_type(c: ColumnModel, live: Seq<bool>, n: int, example: StatModel) -> bool {
    forall|i: int|
        0 <= i < n && #[trigger] ranged(c, live, i) ==> {
            &&& (c.min[i] matches Some(v) ==> alike(v, example))
            &&& (c.max[i] matches Some(v) ==> alike(v, example))
        }
}

/// Where the live rows agree on the type, the summary's range covers the range
/// of each of them.
pub proof fn law_summary_covers_every_live_row(
    c: ColumnModel,
    live: Seq<bool>,
    n: int,
    example: StatModel,
    row: int,
)
    requires
        one_type(c, live, n, example),
        0 <= row < n,
        ranged(c, live, row),
    ensures
        c.min[row] matches Some(v) ==> (summary_of(c, live, n).min matches Some(m) && at_most(
            m,
            v,
        )),
        c.max[row] matches Some(v) ==> (summary_of(c, live, n).max matches Some(m) && at_most(
            v,
            m,
        )),
    decreases n,
{
    lemma_summary_type(c, live, n - 1, example);
    let s = summary_of(c, live, n - 1);
    let last = n - 1;
    if row < last {
        law_summary_covers_every_live_row(c, live, n - 1, example, row);
    }
    if ranged(c, live, last) {
        match (s.min, c.min[last]) {
            (Some(m), Some(x)) => {
                law_values_of_one_variant_are_totally_ordered(m, x, x);
                law_values_of_one_variant_are_totally_ordered(x, m, m);
                law_values_of_one_variant_are_totally_ordered(x, x, x);
                if row < last {
                    match c.min[row] {
                        Some(v) => {
                            law_values_of_one_variant_are_totally_ordered(x, m, v);
                            law_values_of_one_variant_are_totally_ordered(m, v, v);
                        },
                        None => {},
                    }
                }
            },
            (None, Some(x)) => {
                law_values_of_one_variant_are_totally_ordered(x, x, x);
            },
            _ => {},
        }
        match (s.max, c.max[last]) {
            (Some(m), Some(x)) => {
                law_values_of_one_variant_are_totally_ordered(m, x, x);
                law_values_of_one_variant_are_totally_ordered(x, m, m);
                law_values_of_one_variant_are_totally_ordered(x, x, x);
                if row < last {
                    match c.max[row] {
                        Some(v) => {
                            law_values_of_one_variant_are_totally_ordered(v, m, x);
                            law_values_of_one_variant_are_totally_ordered(v, m, m);
                        },
                        None => {},
                    }
                }
            },
            (None, Some(x)) => {
                law_values_of_one_variant_are_totally_ordered(x, x, x);
            },
            _ => {},
        }
    }
}

proof fn lemma_summary_type(c: ColumnModel, live: Seq<bool>, n: int, example: StatModel)
    requires
        one_type(c, live, n, example),
    ensures
        summary_of(c, live, n).min matches Some(m) ==> alike(m, example),
        summary_of(c, live, n).max matches Some(m) ==> alike(m, example),
    decreases n,
{
    if n > 0 {
        lemma_summary_type(c, live, n - 1, example);
        assert(ranged(c, live, n - 1) || !ranged(c, live, n - 1));
    }
}

/// A predicate on ranges that still holds when a range is widened.
pub open spec fn widens(p: spec_fn(StatModel, StatModel) -> bool) -> bool {
    forall|lo: StatModel, hi: StatModel, lo2: StatModel, hi2: StatModel| #[trigger]
        p(lo, hi) && at_most(lo2, lo) && at_most(hi, hi2) ==> #[trigger] p(lo2, hi2)
}

/// A predicate that the summary's range does not satisfy holds of no live row:
/// the column need not be read. It takes a predicate that survives widening,
/// and live rows that agree on the type.
pub proof fn law_summary_rules_out_a_whole_column(
    c: ColumnModel,
    live: Seq<bool>,
    n: int,
    example: StatModel,
    row: int,
    p: spec_fn(StatModel, StatModel) -> bool,
)
    requires
        one_type(c, live, n, example),
        widens(p),
        0 <= row < n,
        ranged(c, live, row),
        c.min[row] is Some,
        c.max[row] is Some,
        p(c.min[row].unwrap(), c.max[row].unwrap()),
    ensures
        summary_of(c, live, n).min matches Some(lo) && summary_of(c, live, n).max matches Some(
            hi,
        ) && p(lo, hi),
{
    law_summary_covers_every_live_row(c, live, n, example, row);
    let lo = summary_of(c, live, n).min.unwrap();
    let hi = summary_of(c, live, n).max.unwrap();
    assert(p(c.min[row].unwrap(), c.max[row].unwrap()));
    assert(p(lo, hi));
}

fn absent(rows: usize) -> (list: Vec<Option<StatVal>>)
    ensures
        stat_models(list@) == Seq::new(rows as nat, |i: int| None::<StatModel>),
{
    let mut list: Vec<Option<StatVal>> = Vec::new();
    while list.len() < rows
        invariant
            list@.len() <= rows,
            forall|i: int| 0 <= i < list@.len() ==> list@[i] is None,
        decreases rows - list@.len(),
    {
        list.push(None);
    }
    assert(stat_models(list@) =~= Seq::new(rows as nat, |i: int| None::<StatModel>));
    list
}

fn zeroes(rows: usize) -> (list: Vec<u64>)
    ensures
        list@ == Seq::new(rows as nat, |i: int| 0u64),
{
    let mut list: Vec<u64> = Vec::new();
    while list.len() < rows
        invariant
            list@.len() <= rows,
            forall|i: int| 0 <= i < list@.len() ==> list@[i] == 0,
        decreases rows - list@.len(),
    {
        list.push(0);
    }
    assert(list@ =~= Seq::new(rows as nat, |i: int| 0u64));
    list
}

fn resize_values(list: &mut Vec<Option<StatVal>>, rows: usize)
    ensures
        stat_models(final(list)@) == resized(stat_models(old(list)@), rows as nat, None),
{
    let ghost before = list@;
    if list.len() > rows {
        list.truncate(rows);
    }
    while list.len() < rows
        invariant
            list@.len() <= rows,
            forall|i: int|
                0 <= i < list@.len() ==> stat_model(#[trigger] list@[i]) == (if i < before.len() {
                    stat_model(before[i])
                } else {
                    None
                }),
            list@.len() >= before.len() || list@.len() == rows,
        decreases rows - list@.len(),
    {
        list.push(None);
    }
    assert(stat_models(list@) =~= resized(stat_models(before), rows as nat, None));
}

fn resize_counts(list: &mut Vec<u64>, rows: usize)
    ensures
        final(list)@ == resized(old(list)@, rows as nat, 0u64),
{
    let ghost before = list@;
    if list.len() > rows {
        list.truncate(rows);
    }
    while list.len() < rows
        invariant
            list@.len() <= rows,
            forall|i: int|
                0 <= i < list@.len() ==> #[trigger] list@[i] == (if i < before.len() {
                    before[i]
                } else {
                    0
                }),
            list@.len() >= before.len() || list@.len() == rows,
        decreases rows - list@.len(),
    {
        list.push(0);
    }
    assert(list@ =~= resized(before, rows as nat, 0u64));
}

fn mask(map: &Bitmap, rows: usize) -> (list: Vec<bool>)
    ensures
        list@ == Seq::new(rows as nat, |i: int| flag(map@, i)),
{
    let mut list: Vec<bool> = Vec::new();
    while list.len() < rows
        invariant
            list@.len() <= rows,
            forall|i: int| 0 <= i < list@.len() ==> list@[i] == flag(map@, i),
        decreases rows - list@.len(),
    {
        let i: usize = list.len();
        list.push(map.get(i));
    }
    assert(list@ =~= Seq::new(rows as nat, |i: int| flag(map@, i)));
    list
}

impl StatColumn {
    /// A column whose every row is absent.
    pub fn new(rows: usize) -> (column: Self)
        ensures
            column@ == absent_rows(rows as nat),
            sound(column@),
    {
        StatColumn {
            present: Bitmap::zeros(rows),
            stats_valid: Bitmap::zeros(rows),
            min: absent(rows),
            max: absent(rows),
            row_count: zeroes(rows),
            null_count: zeroes(rows),
        }
    }

    /// The `present` mask as a dense list, one entry per row.
    pub fn present_mask(&self) -> (list: Vec<bool>)
        ensures
            list@ == Seq::new(self@.min.len(), |i: int| flag(self@.present, i)),
    {
        mask(&self.present, self.min.len())
    }

    /// The `stats_valid` mask as a dense list, one entry per row.
    pub fn stats_valid_mask(&self) -> (list: Vec<bool>)
        ensures
            list@ == Seq::new(self@.min.len(), |i: int| flag(self@.stats_valid, i)),
    {
        mask(&self.stats_valid, self.min.len())
    }

    /// Row slots covered.
    pub fn rows(&self) -> (rows: usize)
        ensures
            rows == self@.min.len(),
    {
        self.min.len()
    }

    /// Brings the column to `rows` rows. New rows are absent.
    pub fn resize(&mut self, rows: usize)
        ensures
            final(self)@ == with_rows(old(self)@, rows as nat),
    {
        self.present.resize(rows);
        self.stats_valid.resize(rows);
        resize_values(&mut self.min, rows);
        resize_values(&mut self.max, rows);
        resize_counts(&mut self.row_count, rows);
        resize_counts(&mut self.null_count, rows);
        assert(self@ =~= with_rows(old(self)@, rows as nat)) by {
            assert(self@.present =~= grown(old(self)@.present, rows as nat));
            assert(self@.stats_valid =~= grown(old(self)@.stats_valid, rows as nat));
        }
    }

    /// Clears every trace of one row, so a slot that is used again cannot show
    /// the previous occupant's statistics.
    pub fn clear_row(&mut self, row: usize)
        requires
            aligned(old(self)@),
        ensures
            final(self)@ == with_row_cleared(old(self)@, row as int),
    {
        if row >= self.min.len() {
            return;
        }
        let ghost before = self@;
        self.present.set(row, false);
        self.stats_valid.set(row, false);
        self.min.set(row, None);
        self.max.set(row, None);
        self.row_count.set(row, 0);
        self.null_count.set(row, 0);
        assert(self@.min =~= before.min.update(row as int, None));
        assert(self@.max =~= before.max.update(row as int, None));
    }

    /// Records that the dataset at `row` declares this array or attribute.
    pub fn mark_present(&mut self, row: usize)
        ensures
            final(self)@ == with_present(old(self)@, row as int),
    {
        self.present.set(row, true);
    }

    /// Writes one cell from a freshly computed statistic.
    ///
    /// `min` and `max` are stored as they are; `stats_valid` stays unset when
    /// the source reports no range.
    pub fn set_stats(&mut self, row: usize, stats: &ArrayStats)
        requires
            aligned(old(self)@),
        ensures
            final(self)@ == with_stats(
                old(self)@,
                row as int,
                stat_model(stats.min),
                stat_model(stats.max),
                stats.row_count,
                stats.null_count,
            ),
    {
        if row >= self.min.len() {
            return;
        }
        let ghost before = self@;
        self.present.set(row, true);
        self.row_count.set(row, stats.row_count);
        self.null_count.set(row, stats.null_count);
        if stats.min.is_some() && stats.max.is_some() {
            self.min.set(row, copy_stat(&stats.min));
            self.max.set(row, copy_stat(&stats.max));
            self.stats_valid.set(row, true);
            assert(self@.min =~= before.min.update(row as int, stat_model(stats.min)));
            assert(self@.max =~= before.max.update(row as int, stat_model(stats.max)));
        } else {
            // No range reported: the counts still stand.
            self.min.set(row, None);
            self.max.set(row, None);
            self.stats_valid.set(row, false);
            assert(self@.min =~= before.min.update(row as int, None));
            assert(self@.max =~= before.max.update(row as int, None));
        }
    }

    /// Collection-wide summary over the rows selected by `live`.
    pub fn summarize(&self, live: &[bool]) -> (summary: ColumnSummary)
        requires
            aligned(self@),
        ensures
            summary@ == summary_of(self@, live@, self@.min.len() as int),
    {
        let mut min: Option<StatVal> = None;
        let mut max: Option<StatVal> = None;
        let mut present_count: u64 = 0;
        let mut row: usize = 0;
        while row < self.min.len()
            invariant
                row <= self.min@.len(),
                aligned(self@),
                present_count <= row,
                stat_model(min) == summary_of(self@, live@, row as int).min,
                stat_model(max) == summary_of(self@, live@, row as int).max,
                present_count == summary_of(self@, live@, row as int).present_count,
            decreases self.min@.len() - row,
        {
            if row < live.len() && live[row] && self.present.get(row) {
                present_count += 1;
                if self.stats_valid.get(row) {
                    assert(self@.min[row as int] == stat_model(self.min@[row as int]));
                    assert(self@.max[row as int] == stat_model(self.max@[row as int]));
                    if let Some(v) = &self.min[row] {
                        min = match min {
                            None => Some(v.clone()),
                            Some(m) => Some(m.min_with(v.clone())),
                        };
                    }
                    if let Some(v) = &self.max[row] {
                        max = match max {
                            None => Some(v.clone()),
                            Some(m) => Some(m.max_with(v.clone())),
                        };
                    }
                }
            }
            row += 1;
        }
        ColumnSummary { min, max, present_count }
    }
}

/// A column's collection-wide range, held in the index footer.
///
/// Reading it costs no column data, so a predicate outside this range rules the
/// whole column out before a single block is fetched.
#[derive(Debug, PartialEq, Eq)]
pub struct ColumnSummary {
    /// Smallest `min` across live rows, if any.
    pub min: Option<StatVal>,
    /// Largest `max` across live rows, if any.
    pub max: Option<StatVal>,
    /// How many live rows declare this array or attribute.
    pub present_count: u64,
}

impl View for ColumnSummary {
    type V = SummaryModel;

    open spec fn view(&self) -> SummaryModel {
        SummaryModel {
            min: stat_model(self.min),
            max: stat_model(self.max),
            present_count: self.present_count as nat,
        }
    }
}

impl Clone for ColumnSummary {
    fn clone(&self) -> (copy: Self)
        ensures
            copy@ == self@,
    {
        ColumnSummary {
            min: copy_stat(&self.min),
            max: copy_stat(&self.max),
            present_count: self.present_count,
        }
    }
}

impl ColumnSummary {
    /// `true` if some row could satisfy `predicate`, judged from the
    /// collection-wide range alone.
    ///
    /// A `true` is not a match: it means that the column is worth looking at.
    /// Without a range the answer is whether any live row is there at all.
    pub fn might_match<P: Fn(&StatVal, &StatVal) -> bool>(&self, predicate: P) -> (worth: bool)
        requires
            match (self.min, self.max) {
                (Some(lo), Some(hi)) => call_requires(predicate, (&lo, &hi)),
                _ => true,
            },
        ensures
            match (self.min, self.max) {
                (Some(lo), Some(hi)) => call_ensures(predicate, (&lo, &hi), worth),
                _ => worth == (self.present_count > 0),
            },
    {
        match (&self.min, &self.max) {
            (Some(lo), Some(hi)) => predicate(lo, hi),
            // No range recorded: it cannot be ruled out.
            _ => self.present_count > 0,
        }
    }
}

/// A column with the collection's liveness mask already applied.
///
/// Reading a column correctly means combining three masks: `present`,
/// `stats_valid`, and `live`. This view folds all three in, so every accessor
/// answers only for rows that have data.
#[derive(Clone, Copy)]
pub struct ColumnView<'a> {
    column: &'a StatColumn,
    live: &'a [bool],
}

impl<'a> ColumnView<'a> {
    #[verifier::type_invariant]
    spec fn readable(self) -> bool {
        aligned(self.column@)
    }

    /// The column behind the view.
    pub closed spec fn model(&self) -> ColumnModel {
        self.column@
    }

    /// The liveness mask of the view.
    pub closed spec fn liveness(&self) -> Seq<bool> {
        self.live@
    }

    /// A column under a liveness mask.
    pub fn new(column: &'a StatColumn, live: &'a [bool]) -> (view: Self)
        requires
            aligned(column@),
        ensures
            view.model() == column@,
            view.liveness() == live@,
    {
        ColumnView { column, live }
    }

    /// Row slots covered, deleted ones included.
    pub fn rows(&self) -> (rows: usize)
        ensures
            rows == self.model().min.len(),
    {
        self.column.min.len()
    }

    /// The dataset at `row` exists and declares this array or attribute.
    pub fn is_present(&self, row: usize) -> (present: bool)
        ensures
            present == shown(self.model(), self.liveness(), row as int),
    {
        row < self.live.len() && self.live[row] && self.column.present.get(row)
    }

    /// As [`is_present`](Self::is_present), and `min` and `max` are usable.
    pub fn has_stats(&self, row: usize) -> (usable: bool)
        ensures
            usable == ranged(self.model(), self.liveness(), row as int),
    {
        self.is_present(row) && self.column.stats_valid.get(row)
    }

    /// Minimum at `row`, or `None` if the row has no usable statistic.
    pub fn min(&self, row: usize) -> (value: Option<&'a StatVal>)
        ensures
            match value {
                Some(v) => ranged(self.model(), self.liveness(), row as int) && row
                    < self.model().min.len() && self.model().min[row as int] == Some(v@),
                None => !ranged(self.model(), self.liveness(), row as int) || row
                    >= self.model().min.len() || self.model().min[row as int] is None,
            },
    {
        if self.has_stats(row) && row < self.column.min.len() {
            assert(self.model().min[row as int] == stat_model(self.column.min@[row as int]));
            self.column.min[row].as_ref()
        } else {
            None
        }
    }

    /// Maximum at `row`, or `None` if the row has no usable statistic.
    pub fn max(&self, row: usize) -> (value: Option<&'a StatVal>)
        ensures
            match value {
                Some(v) => ranged(self.model(), self.liveness(), row as int) && row
                    < self.model().max.len() && self.model().max[row as int] == Some(v@),
                None => !ranged(self.model(), self.liveness(), row as int) || row
                    >= self.model().max.len() || self.model().max[row as int] is None,
            },
    {
        if self.has_stats(row) && row < self.column.max.len() {
            assert(self.model().max[row as int] == stat_model(self.column.max@[row as int]));
            self.column.max[row].as_ref()
        } else {
            None
        }
    }

    /// Element count at `row`; 0 where the dataset does not declare it.
    pub fn row_count(&self, row: usize) -> (n: u64)
        ensures
            n == (if shown(self.model(), self.liveness(), row as int) && row
                < self.model().row_count.len() {
                self.model().row_count[row as int]
            } else {
                0
            }),
    {
        if self.is_present(row) && row < self.column.row_count.len() {
            self.column.row_count[row]
        } else {
            0
        }
    }

    /// Null count at `row`; 0 where the dataset does not declare it.
    pub fn null_count(&self, row: usize) -> (n: u64)
        ensures
            n == (if shown(self.model(), self.liveness(), row as int) && row
                < self.model().null_count.len() {
                self.model().null_count[row as int]
            } else {
                0
            }),
    {
        if self.is_present(row) && row < self.column.null_count.len() {
            self.column.null_count[row]
        } else {
            0
        }
    }

    /// A row has a usable range.
    pub open spec fn bounded(&self, row: int) -> bool {
        &&& ranged(self.model(), self.liveness(), row)
        &&& 0 <= row < self.model().min.len()
        &&& self.model().min[row] is Some
        &&& self.model().max[row] is Some
    }

    /// Some row has this range, so a predicate is asked about it.
    pub open spec fn asks(&self, lo: StatModel, hi: StatModel) -> bool {
        exists|row: int| #[trigger]
            self.bounded(row) && self.model().min[row] == Some(lo) && self.model().max[row] == Some(
                hi,
            )
    }

    /// The predicate can answer `hit` for the range of a row.
    pub open spec fn answers<P: Fn(&StatVal, &StatVal) -> bool>(
        &self,
        predicate: P,
        row: int,
        hit: bool,
    ) -> bool {
        exists|lo: &StatVal, hi: &StatVal|
            {
                &&& self.model().min[row] == Some(lo@)
                &&& self.model().max[row] == Some(hi@)
                &&& #[trigger] call_ensures(predicate, (lo, hi), hit)
            }
    }

    /// Rows whose `(min, max)` range could satisfy `predicate`, in order.
    ///
    /// Rows that are deleted, absent, or without a range are excluded. The
    /// predicate sees the row's range, not individual values, and is asked
    /// about no other row.
    pub fn candidates<P: Fn(&StatVal, &StatVal) -> bool>(&self, predicate: P) -> (list: Vec<usize>)
        requires
            forall|lo: &StatVal, hi: &StatVal|
                self.asks(lo@, hi@) ==> #[trigger] call_requires(predicate, (lo, hi)),
        ensures
            forall|i: int, j: int| 0 <= i < j < list@.len() ==> list@[i] < list@[j],
            forall|i: int| 0 <= i < list@.len() ==> self.bounded(#[trigger] list@[i] as int),
            forall|row: usize|
                self.bounded(row as int) ==> self.answers(
                    predicate,
                    row as int,
                    #[trigger] list@.contains(row),
                ),
    {
        proof {
            use_type_invariant(self);
        }
        let rows: usize = self.rows();
        let mut list: Vec<usize> = Vec::new();
        let mut row: usize = 0;
        while row < rows
            invariant
                rows == self.model().min.len(),
                aligned(self.model()),
                row <= rows,
                forall|lo: &StatVal, hi: &StatVal|
                    self.asks(lo@, hi@) ==> #[trigger] call_requires(predicate, (lo, hi)),
                forall|i: int, j: int| 0 <= i < j < list@.len() ==> list@[i] < list@[j],
                forall|i: int|
                    0 <= i < list@.len() ==> self.bounded(#[trigger] list@[i] as int) && list@[i]
                        < row,
                forall|r: usize|
                    r < row && self.bounded(r as int) ==> self.answers(
                        predicate,
                        r as int,
                        #[trigger] list@.contains(r),
                    ),
            decreases rows - row,
        {
            let ghost before = list@;
            match (self.min(row), self.max(row)) {
                (Some(lo), Some(hi)) => {
                    assert(self.bounded(row as int));
                    assert(self.asks(lo@, hi@));
                    let hit = predicate(lo, hi);
                    if hit {
                        list.push(row);
                    }
                    proof {
                        assert(list@.contains(row) == hit) by {
                            if hit {
                                assert(list@[list@.len() - 1] == row);
                            }
                        }
                        assert(call_ensures(predicate, (lo, hi), hit));
                        assert(self.answers(predicate, row as int, hit));
                    }
                },
                _ => {},
            }
            proof {
                assert forall|r: usize| r < row + 1 && self.bounded(r as int) implies self.answers(
                    predicate,
                    r as int,
                    #[trigger] list@.contains(r),
                ) by {
                    if r < row {
                        assert(before.contains(r) == list@.contains(r)) by {
                            if before.contains(r) {
                                let k = choose|k: int| 0 <= k < before.len() && before[k] == r;
                                assert(list@[k] == r);
                            }
                            if list@.contains(r) {
                                let k = choose|k: int| 0 <= k < list@.len() && list@[k] == r;
                                assert(before[k] == r);
                            }
                        }
                    }
                }
            }
            row += 1;
        }
        list
    }

    /// Every row that exists and declares this array or attribute, in order.
    pub fn present_rows(&self) -> (list: Vec<usize>)
        ensures
            forall|i: int, j: int| 0 <= i < j < list@.len() ==> list@[i] < list@[j],
            forall|row: usize| #[trigger]
                list@.contains(row) <==> row < self.model().min.len() && shown(
                    self.model(),
                    self.liveness(),
                    row as int,
                ),
    {
        let rows: usize = self.rows();
        let mut list: Vec<usize> = Vec::new();
        let mut row: usize = 0;
        while row < rows
            invariant
                rows == self.model().min.len(),
                row <= rows,
                forall|i: int, j: int| 0 <= i < j < list@.len() ==> list@[i] < list@[j],
                forall|i: int| 0 <= i < list@.len() ==> list@[i] < row,
                forall|r: usize| #[trigger]
                    list@.contains(r) <==> r < row && shown(
                        self.model(),
                        self.liveness(),
                        r as int,
                    ),
            decreases rows - row,
        {
            let ghost before = list@;
            let hit = self.is_present(row);
            if hit {
                list.push(row);
            }
            proof {
                assert forall|r: usize| #[trigger]
                    list@.contains(r) <==> r < row + 1 && shown(
                        self.model(),
                        self.liveness(),
                        r as int,
                    ) by {
                    if before.contains(r) {
                        let k = choose|k: int| 0 <= k < before.len() && before[k] == r;
                        assert(list@[k] == r);
                    }
                    if list@.contains(r) {
                        let k = choose|k: int| 0 <= k < list@.len() && list@[k] == r;
                        if k < before.len() {
                            assert(before[k] == r);
                            assert(before.contains(r));
                        }
                    }
                    if r == row && hit {
                        assert(list@[list@.len() - 1] == row);
                    }
                }
            }
            row += 1;
        }
        list
    }

    /// The underlying buffers. Masks are not applied: combine with
    /// [`live`](Self::live).
    pub fn raw(&self) -> (column: &'a StatColumn)
        ensures
            column@ == self.model(),
    {
        self.column
    }

    /// The liveness mask over row slots.
    pub fn live(&self) -> (live: &'a [bool])
        ensures
            live@ == self.liveness(),
    {
        self.live
    }
}

/// The statistics of a row read back as they were written: the counts always,
/// and the range where both ends were given. Without both ends the row has no
/// range. Every other row stays as it was.
pub proof fn law_written_statistics_read_back(
    c: ColumnModel,
    row: int,
    min: Option<StatModel>,
    max: Option<StatModel>,
    row_count: u64,
    null_count: u64,
    other: int,
)
    requires
        sound(c),
        0 <= row < c.min.len(),
        0 <= other < c.min.len(),
        other != row,
    ensures
        ({
            let after = with_stats(c, row, min, max, row_count, null_count);
            &&& after.min.len() == c.min.len()
            &&& after.present[row]
            &&& after.row_count[row] == row_count
            &&& after.null_count[row] == null_count
            &&& after.stats_valid[row] <==> min is Some && max is Some
            &&& min is Some && max is Some ==> after.min[row] == min && after.max[row] == max
            &&& min is None || max is None ==> after.min[row] is None && after.max[row] is None
            &&& after.present[other] == c.present[other]
            &&& after.stats_valid[other] == c.stats_valid[other]
            &&& after.min[other] == c.min[other]
            &&& after.max[other] == c.max[other]
            &&& after.row_count[other] == c.row_count[other]
            &&& after.null_count[other] == c.null_count[other]
        }),
{
}

/// A row that is marked present is, and nothing else changes. A row outside the
/// column changes nothing, whatever is done to it.
pub proof fn law_marked_rows_are_present(c: ColumnModel, row: int, other: int, outside: int)
    requires
        sound(c),
        0 <= row < c.min.len(),
        0 <= other < c.min.len(),
        outside < 0 || outside >= c.min.len(),
    ensures
        ({
            let after = with_present(c, row);
            &&& after.present[row]
            &&& other != row ==> after.present[other] == c.present[other]
            &&& after.stats_valid == c.stats_valid
            &&& after.min == c.min
            &&& after.max == c.max
            &&& after.row_count == c.row_count
            &&& after.null_count == c.null_count
        }),
        with_present(c, outside) == c,
        with_row_cleared(c, outside) == c,
        forall|min: Option<StatModel>, max: Option<StatModel>, rows: u64, nulls: u64| #[trigger]
            with_stats(c, outside, min, max, rows, nulls) == c,
{
}

/// A column that grows keeps its rows, and every new row is absent.
pub proof fn law_grown_columns_keep_their_rows(c: ColumnModel, rows: nat, row: int)
    requires
        sound(c),
        c.min.len() <= rows,
        0 <= row < rows,
    ensures
        ({
            let after = with_rows(c, rows);
            &&& after.min.len() == rows
            &&& after.present.len() == rows
            &&& row < c.min.len() ==> after.present[row] == c.present[row]
                && after.stats_valid[row] == c.stats_valid[row] && after.min[row] == c.min[row]
                && after.max[row] == c.max[row] && after.row_count[row] == c.row_count[row]
                && after.null_count[row] == c.null_count[row]
            &&& row >= c.min.len() ==> !after.present[row] && !after.stats_valid[row]
                && after.min[row] is None && after.max[row] is None && after.row_count[row] == 0
                && after.null_count[row] == 0
        }),
        ({
            let empty = absent_rows(rows);
            &&& empty.min.len() == rows
            &&& !empty.present[row] && !empty.stats_valid[row]
            &&& empty.min[row] is None && empty.max[row] is None
            &&& empty.row_count[row] == 0 && empty.null_count[row] == 0
        }),
{
}

/// A row shows exactly where its dataset is live and declares the column, and
/// its range where it is also marked usable.
pub proof fn law_only_live_present_rows_show(c: ColumnModel, live: Seq<bool>, row: int)
    ensures
        shown(c, live, row) <==> 0 <= row < live.len() && live[row] && row < c.present.len()
            && c.present[row],
        ranged(c, live, row) <==> 0 <= row < live.len() && live[row] && row < c.present.len()
            && c.present[row] && row < c.stats_valid.len() && c.stats_valid[row],
{
}

/// The ends of a summary are ends of live rows, and it counts the rows that
/// show.
pub proof fn law_summaries_are_made_of_live_rows(c: ColumnModel, live: Seq<bool>, n: int)
    requires
        0 <= n,
    ensures
        summary_of(c, live, n).min matches Some(low) ==> exists|row: int|
            0 <= row < n && #[trigger] ranged(c, live, row) && c.min[row] == Some(low),
        summary_of(c, live, n).max matches Some(high) ==> exists|row: int|
            0 <= row < n && #[trigger] ranged(c, live, row) && c.max[row] == Some(high),
        summary_of(c, live, n).present_count == count(
            Seq::new(n as nat, |row: int| flag(live, row) && flag(c.present, row)),
        ),
    decreases n,
{
    let flags = Seq::new(n as nat, |row: int| flag(live, row) && flag(c.present, row));
    if n > 0 {
        law_summaries_are_made_of_live_rows(c, live, n - 1);
        let fewer = Seq::new((n - 1) as nat, |row: int| flag(live, row) && flag(c.present, row));
        assert(flags.drop_last() =~= fewer);
        let before = summary_of(c, live, n - 1);
        let after = summary_of(c, live, n);
        let last = n - 1;
        if after.min is Some {
            if ranged(c, live, last) && after.min == c.min[last] {
                assert(0 <= last < n && ranged(c, live, last));
            } else {
                assert(after.min == before.min);
                let low = after.min.unwrap();
                let row = choose|row: int|
                    0 <= row < n - 1 && #[trigger] ranged(c, live, row) && c.min[row] == Some(low);
                assert(0 <= row < n && ranged(c, live, row));
            }
        }
        if after.max is Some {
            if ranged(c, live, last) && after.max == c.max[last] {
                assert(0 <= last < n && ranged(c, live, last));
            } else {
                assert(after.max == before.max);
                let high = after.max.unwrap();
                let row = choose|row: int|
                    0 <= row < n - 1 && #[trigger] ranged(c, live, row) && c.max[row] == Some(high);
                assert(0 <= row < n && ranged(c, live, row));
            }
        }
    }
}

/// No range of a live row lies outside the range of the summary, where the rows
/// agree on the type.
pub proof fn law_no_live_row_lies_outside_the_summary(
    c: ColumnModel,
    live: Seq<bool>,
    n: int,
    example: StatModel,
    row: int,
)
    requires
        one_type(c, live, n, example),
        0 <= row < n,
        ranged(c, live, row),
    ensures
        c.min[row] matches Some(v) ==> (summary_of(c, live, n).min matches Some(low)
            && below_or_equal(low, v)),
        c.max[row] matches Some(v) ==> (summary_of(c, live, n).max matches Some(high)
            && below_or_equal(v, high)),
{
    law_summary_covers_every_live_row(c, live, n, example, row);
    if c.min[row] is Some {
        let low = summary_of(c, live, n).min.unwrap();
        law_values_of_one_variant_are_totally_ordered(low, c.min[row].unwrap(), low);
    }
    if c.max[row] is Some {
        let high = summary_of(c, live, n).max.unwrap();
        law_values_of_one_variant_are_totally_ordered(c.max[row].unwrap(), high, high);
    }
}

/// A predicate is asked about the rows with a range alone: live, declared, marked
/// usable, and with both ends. It is asked with the two ends of that row.
pub proof fn law_only_rows_with_a_range_are_asked_about(
    view: ColumnView<'_>,
    row: int,
    lo: StatModel,
    hi: StatModel,
)
    ensures
        view.bounded(row) <==> {
            &&& 0 <= row < view.liveness().len() && view.liveness()[row]
            &&& row < view.model().present.len() && view.model().present[row]
            &&& row < view.model().stats_valid.len() && view.model().stats_valid[row]
            &&& row < view.model().min.len() && view.model().min[row] is Some
            &&& view.model().max[row] is Some
        },
        view.bounded(row) && view.model().min[row] == Some(lo) && view.model().max[row] == Some(hi)
            ==> view.asks(lo, hi),
        view.asks(lo, hi) ==> exists|r: int| #[trigger]
            view.bounded(r) && view.model().min[r] == Some(lo) && view.model().max[r] == Some(hi),
{
}

} // verus!
