//! Statistics of one array.

use crate::pruning::value::{alike, stat_order, StatModel, StatVal};
use std::cmp::Ordering;
use vstd::prelude::*;

verus! {

/// What a write recorded of one array: the range of its values, and counts.
#[derive(Debug, PartialEq, Eq)]
pub struct ArrayStats {
    /// Name of the array.
    pub name: String,
    /// Smallest value; `None` for a type without an order.
    pub min: Option<StatVal>,
    /// Largest value; `None` for a type without an order.
    pub max: Option<StatVal>,
    /// How many elements equal the fill value.
    pub null_count: u64,
    /// How many elements there are.
    pub row_count: u64,
}

/// What an optional statistic value is.
pub open spec fn stat_model(value: Option<StatVal>) -> Option<StatModel> {
    match value {
        Some(v) => Some(v@),
        None => None,
    }
}

/// What the statistics of one array say.
#[verifier::ext_equal]
pub struct StatsModel {
    /// Name of the array.
    pub name: Seq<char>,
    /// Smallest value.
    pub min: Option<StatModel>,
    /// Largest value.
    pub max: Option<StatModel>,
    /// How many elements equal the fill value.
    pub null_count: u64,
    /// How many elements there are.
    pub row_count: u64,
}

impl View for ArrayStats {
    type V = StatsModel;

    open spec fn view(&self) -> StatsModel {
        StatsModel {
            name: self.name@,
            min: stat_model(self.min),
            max: stat_model(self.max),
            null_count: self.null_count,
            row_count: self.row_count,
        }
    }
}

/// A copy of an optional statistic value.
pub fn copy_stat(value: &Option<StatVal>) -> (copy: Option<StatVal>)
    ensures
        stat_model(copy) == stat_model(*value),
{
    match value {
        Some(v) => Some(v.clone()),
        None => None,
    }
}

/// Which end of a range is kept.
#[derive(Debug, Clone, Copy, PartialEq, Eq, Structural)]
pub enum Bound {
    /// The smaller one.
    Min,
    /// The larger one.
    Max,
}

/// Whether a bound comes before another or equals it. Bounds of two variants
/// are in no order.
pub open spec fn at_most(a: StatModel, b: StatModel) -> bool {
    stat_order(a, b) == Some(Ordering::Less) || stat_order(a, b) == Some(Ordering::Equal)
}

/// The smaller or the larger of two bounds. A bound that is absent yields to
/// one that is present.
pub open spec fn wider_of(
    a: Option<StatModel>,
    b: Option<StatModel>,
    bound: Bound,
) -> Option<StatModel> {
    match (a, b) {
        (None, x) => x,
        (x, None) => x,
        (Some(x), Some(y)) => Some(
            if at_most(x, y) == (bound == Bound::Min) {
                x
            } else {
                y
            },
        ),
    }
}

/// A sum that stops at the largest number of 64 bits.
pub open spec fn saturated(a: u64, b: u64) -> u64 {
    if a + b > u64::MAX {
        u64::MAX
    } else {
        (a + b) as u64
    }
}

/// The statistics of two datasets' elements of one array together.
pub open spec fn merged(a: StatsModel, b: StatsModel) -> StatsModel {
    StatsModel {
        name: a.name,
        min: wider_of(a.min, b.min, Bound::Min),
        max: wider_of(a.max, b.max, Bound::Max),
        null_count: saturated(a.null_count, b.null_count),
        row_count: saturated(a.row_count, b.row_count),
    }
}

/// Two bounds are of one variant, or one of them is absent.
pub open spec fn bounds_compare(a: Option<StatModel>, b: Option<StatModel>) -> bool {
    match (a, b) {
        (Some(x), Some(y)) => alike(x, y),
        _ => true,
    }
}

/// The statistics of two datasets are of types that compare.
pub open spec fn comparable(a: StatsModel, b: StatsModel) -> bool {
    bounds_compare(a.min, b.min) && bounds_compare(a.max, b.max)
}

fn is_alike(a: &Option<StatVal>, b: &Option<StatVal>) -> (same: bool)
    ensures
        same == bounds_compare(stat_model(*a), stat_model(*b)),
{
    match (a, b) {
        (Some(x), Some(y)) => match (x, y) {
            (StatVal::Int(_), StatVal::Int(_)) => true,
            (StatVal::UInt(_), StatVal::UInt(_)) => true,
            (StatVal::Float(_), StatVal::Float(_)) => true,
            (StatVal::Bytes(_), StatVal::Bytes(_)) => true,
            (StatVal::TimestampNs(_), StatVal::TimestampNs(_)) => true,
            _ => false,
        },
        _ => true,
    }
}

fn is_le(a: &StatVal, b: &StatVal) -> (le: bool)
    ensures
        le == at_most(a@, b@),
{
    match a.partial_cmp(b) {
        Some(Ordering::Less) => true,
        Some(Ordering::Equal) => true,
        _ => false,
    }
}

fn wider(a: Option<StatVal>, b: Option<StatVal>, bound: Bound) -> (wide: Option<StatVal>)
    ensures
        stat_model(wide) == wider_of(stat_model(a), stat_model(b), bound),
{
    match (a, b) {
        (None, x) => x,
        (x, None) => x,
        (Some(x), Some(y)) => {
            let keep = match bound {
                Bound::Min => is_le(&x, &y),
                Bound::Max => !is_le(&x, &y),
            };
            if keep {
                Some(x)
            } else {
                Some(y)
            }
        },
    }
}

impl ArrayStats {
    /// Whether another dataset's statistics are of a type that compares with
    /// this one's.
    pub fn compares_with(&self, other: &ArrayStats) -> (same: bool)
        ensures
            same == comparable(self@, other@),
    {
        is_alike(&self.min, &other.min) && is_alike(&self.max, &other.max)
    }

    /// Folds another dataset's statistics for an array into this total.
    ///
    /// The counts add up. Each bound takes the wider of the two. A bound that
    /// is absent yields to a bound that is present.
    pub fn merge(&mut self, other: &ArrayStats)
        ensures
            final(self)@ == merged(old(self)@, other@),
    {
        self.null_count = self.null_count.saturating_add(other.null_count);
        self.row_count = self.row_count.saturating_add(other.row_count);
        let min = self.min.take();
        self.min = wider(min, copy_stat(&other.min), Bound::Min);
        let max = self.max.take();
        self.max = wider(max, copy_stat(&other.max), Bound::Max);
    }
}

impl Clone for ArrayStats {
    fn clone(&self) -> (copy: Self)
        ensures
            copy@ == self@,
    {
        ArrayStats {
            name: self.name.clone(),
            min: copy_stat(&self.min),
            max: copy_stat(&self.max),
            null_count: self.null_count,
            row_count: self.row_count,
        }
    }
}

/// Merging keeps both ranges inside the result, where the bounds are of one
/// variant.
pub proof fn law_merged_bound_covers_both(a: StatModel, b: StatModel, bound: Bound)
    requires
        crate::pruning::value::alike(a, b),
    ensures
        wider_of(Some(a), Some(b), bound) matches Some(w) && (match bound {
            Bound::Min => at_most(w, a) && at_most(w, b),
            Bound::Max => at_most(a, w) && at_most(b, w),
        }),
{
    crate::pruning::value::law_values_of_one_variant_are_totally_ordered(a, b, a);
    crate::pruning::value::law_values_of_one_variant_are_totally_ordered(b, a, b);
    crate::pruning::value::law_values_of_one_variant_are_totally_ordered(a, a, a);
    crate::pruning::value::law_values_of_one_variant_are_totally_ordered(b, b, b);
}

/// A bound does not lie above another of its variant.
pub open spec fn below_or_equal(low: StatModel, high: StatModel) -> bool {
    match (low, high) {
        (StatModel::Int(a), StatModel::Int(b)) => a <= b,
        (StatModel::UInt(a), StatModel::UInt(b)) => a <= b,
        (StatModel::TimestampNs(a), StatModel::TimestampNs(b)) => a <= b,
        (StatModel::Float(_), StatModel::Float(_)) | (StatModel::Bytes(_), StatModel::Bytes(_)) => {
            stat_order(low, high) == Some(Ordering::Less) || low == high
        },
        _ => false,
    }
}

/// The statistics of two datasets together cover both: the counts add up, up to
/// the largest number of 64 bits; each bound is one of the two, and neither of
/// the two lies outside. An absent bound yields to one that is there.
pub proof fn law_merged_statistics_cover_both(a: StatsModel, b: StatsModel)
    requires
        comparable(a, b),
    ensures
        ({
            let both = merged(a, b);
            &&& both.name == a.name
            &&& both.row_count == a.row_count + b.row_count || (both.row_count == u64::MAX
                && a.row_count + b.row_count > u64::MAX)
            &&& both.null_count == a.null_count + b.null_count || (both.null_count == u64::MAX
                && a.null_count + b.null_count > u64::MAX)
            &&& both.min == a.min || both.min == b.min
            &&& both.max == a.max || both.max == b.max
            &&& a.min matches Some(x) ==> both.min matches Some(low) && below_or_equal(low, x)
            &&& b.min matches Some(x) ==> both.min matches Some(low) && below_or_equal(low, x)
            &&& a.max matches Some(x) ==> both.max matches Some(high) && below_or_equal(x, high)
            &&& b.max matches Some(x) ==> both.max matches Some(high) && below_or_equal(x, high)
        }),
{
    match (a.min, b.min) {
        (Some(x), Some(y)) => {
            law_merged_bound_covers_both(x, y, Bound::Min);
            crate::pruning::value::law_values_of_one_variant_are_totally_ordered(x, y, x);
            crate::pruning::value::law_values_of_one_variant_are_totally_ordered(y, x, y);
        },
        _ => {},
    }
    match (a.max, b.max) {
        (Some(x), Some(y)) => {
            law_merged_bound_covers_both(x, y, Bound::Max);
            crate::pruning::value::law_values_of_one_variant_are_totally_ordered(x, y, x);
            crate::pruning::value::law_values_of_one_variant_are_totally_ordered(y, x, y);
        },
        _ => {},
    }
}

/// Statistics compare exactly where no bound of the one meets a bound of
/// another variant in the other.
pub proof fn law_statistics_of_one_variant_compare(a: StatsModel, b: StatsModel)
    ensures
        comparable(a, b) <==> (a.min is Some && b.min is Some ==> stat_order(
            a.min.unwrap(),
            b.min.unwrap(),
        ) is Some) && (a.max is Some && b.max is Some ==> stat_order(
            a.max.unwrap(),
            b.max.unwrap(),
        ) is Some),
        comparable(a, b) == comparable(b, a),
        comparable(a, a),
{
}

} // verus!
