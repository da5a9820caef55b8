//! The schema of a single named array, and its fill value.

use crate::schema::dtype::DType;
use crate::text::same_text;
use vstd::prelude::*;

verus! {

/// Schema for one named array within a dataset.
///
/// This describes the array, not where its bytes are.
#[derive(Debug, PartialEq, Eq)]
pub struct ArraySchema {
    /// Element type.
    pub dtype: DType,
    /// Logical shape, one entry per axis.
    pub shape: Vec<usize>,
    /// On-disk chunk shape, same rank as `shape`. Equal to `shape` when the
    /// array is stored as one chunk.
    pub chunk_shape: Vec<usize>,
    /// Named dimensions, one per axis, in the order of `shape`.
    pub dimension_names: Vec<String>,
    /// Value returned for elements that were never written.
    pub fill_value: Option<FillValueS>,
}

/// The value of the elements nobody wrote. A float is held by its bits, so one
/// NaN fill equals another of the same bits. Otherwise two datasets with the
/// same NaN-filled array would never share an interned schema.
#[derive(Debug, PartialEq, Eq)]
pub enum FillValueS {
    /// Boolean fill value.
    Bool(bool),
    /// Signed integer fill value.
    Int(i64),
    /// Unsigned integer fill value.
    UInt(u64),
    /// Floating-point fill value, as its bits.
    Float(u64),
    /// String fill value.
    String(String),
    /// Nanoseconds since the Unix epoch, for `TimestampNs` arrays.
    TimestampNs(i64),
}

/// What a fill value is.
pub enum FillModel {
    /// Boolean fill value.
    Bool(bool),
    /// Signed integer fill value.
    Int(i64),
    /// Unsigned integer fill value.
    UInt(u64),
    /// Floating-point fill value, as its bits.
    Float(u64),
    /// The characters of a string fill value.
    String(Seq<char>),
    /// Nanoseconds since the Unix epoch.
    TimestampNs(i64),
}

impl View for FillValueS {
    type V = FillModel;

    open spec fn view(&self) -> FillModel {
        match *self {
            FillValueS::Bool(v) => FillModel::Bool(v),
            FillValueS::Int(v) => FillModel::Int(v),
            FillValueS::UInt(v) => FillModel::UInt(v),
            FillValueS::Float(v) => FillModel::Float(v),
            FillValueS::String(v) => FillModel::String(v@),
            FillValueS::TimestampNs(v) => FillModel::TimestampNs(v),
        }
    }
}

impl Clone for FillValueS {
    fn clone(&self) -> (copy: Self)
        ensures
            copy@ == self@,
    {
        match self {
            FillValueS::Bool(v) => FillValueS::Bool(*v),
            FillValueS::Int(v) => FillValueS::Int(*v),
            FillValueS::UInt(v) => FillValueS::UInt(*v),
            FillValueS::Float(v) => FillValueS::Float(*v),
            FillValueS::String(v) => FillValueS::String(v.clone()),
            FillValueS::TimestampNs(v) => FillValueS::TimestampNs(*v),
        }
    }
}

impl FillValueS {
    /// Whether two fill values are of one variant and hold the same.
    pub fn same(&self, other: &FillValueS) -> (same: bool)
        ensures
            same == (self@ == other@),
    {
        match (self, other) {
            (FillValueS::Bool(a), FillValueS::Bool(b)) => *a == *b,
            (FillValueS::Int(a), FillValueS::Int(b)) => *a == *b,
            (FillValueS::UInt(a), FillValueS::UInt(b)) => *a == *b,
            (FillValueS::Float(a), FillValueS::Float(b)) => *a == *b,
            (FillValueS::String(a), FillValueS::String(b)) => same_text(a.as_str(), b.as_str()),
            (FillValueS::TimestampNs(a), FillValueS::TimestampNs(b)) => *a == *b,
            _ => false,
        }
    }
}

} // verus!
