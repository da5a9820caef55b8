//! Timestamps as RFC 3339 text.

use crate::schema::attr::{attr_dtype, Attr, AttrModel};
use crate::schema::dtype::DType;
use chrono::{DateTime, SecondsFormat, Utc};
use vstd::prelude::*;

verus! {

/// The RFC 3339 text of a moment, in UTC, with as many fractional digits as it
/// needs.
pub uninterp spec fn rfc3339_text(nanos: i64) -> Seq<char>;

/// The moment an RFC 3339 text stands for, where it is one and its nanoseconds
/// fit 64 bits.
pub uninterp spec fn rfc3339_nanos(text: Seq<char>) -> Option<i64>;

/// `DateTime::from_timestamp_nanos` and `to_rfc3339_opts` of the `chrono`
/// crate, with `SecondsFormat::AutoSi` and a `Z`. Believed: the text is a
/// function of the moment alone. Every non-zero fractional digit is written, so
/// the text parses back to the moment. Its letters are left open.
#[verifier::external_body]
fn format_nanos(nanos: i64) -> (text: String)
    ensures
        text@ == rfc3339_text(nanos),
        rfc3339_nanos(text@) == Some(nanos),
{
    DateTime::<Utc>::from_timestamp_nanos(nanos).to_rfc3339_opts(SecondsFormat::AutoSi, true)
}

/// `DateTime::parse_from_rfc3339` and `timestamp_nanos_opt` of the `chrono`
/// crate. Believed: whether a text is an RFC 3339 timestamp whose nanoseconds
/// fit 64 bits, and which moment it is, is a function of the text alone. Which
/// texts those are is left open.
#[verifier::external_body]
fn parse_nanos(text: &str) -> (nanos: Option<i64>)
    ensures
        nanos == rfc3339_nanos(text@),
{
    DateTime::parse_from_rfc3339(text).ok()?.with_timezone(&Utc).timestamp_nanos_opt()
}

/// Formats a nanosecond UTC timestamp as an RFC 3339 string, in the shortest
/// faithful form. Parsing the string gives the timestamp back.
pub fn timestamp_ns_to_rfc3339(nanos: i64) -> (text: String)
    ensures
        text@ == rfc3339_text(nanos),
        rfc3339_nanos(text@) == Some(nanos),
{
    format_nanos(nanos)
}

/// Parses an RFC 3339 string into nanoseconds since the Unix epoch, or `None`
/// if it is not a valid RFC 3339 timestamp within the nanosecond range.
pub fn rfc3339_to_timestamp_ns(text: &str) -> (nanos: Option<i64>)
    ensures
        nanos == rfc3339_nanos(text@),
{
    parse_nanos(text)
}

/// An attribute value of the mutable store: a plain value, or a timestamp.
///
/// The array files have no timestamp attribute, so one is stored as its RFC
/// 3339 text. On read, a string that parses as RFC 3339 is a timestamp again,
/// and any other string stays a string.
#[derive(Debug, PartialEq, Eq)]
pub enum StoreAttr {
    /// Nanoseconds since the Unix epoch.
    TimestampNanoseconds(i64),
    /// Any other value.
    Plain(Attr),
}

/// What an attribute value of the mutable store holds.
pub enum StoreAttrModel {
    /// Nanoseconds since the Unix epoch.
    TimestampNanoseconds(i64),
    /// Any other value.
    Plain(AttrModel),
}

impl View for StoreAttr {
    type V = StoreAttrModel;

    open spec fn view(&self) -> StoreAttrModel {
        match *self {
            StoreAttr::TimestampNanoseconds(n) => StoreAttrModel::TimestampNanoseconds(n),
            StoreAttr::Plain(v) => StoreAttrModel::Plain(v@),
        }
    }
}

/// The type a value of the mutable store occupies.
pub open spec fn store_attr_dtype(value: StoreAttrModel) -> DType {
    match value {
        StoreAttrModel::TimestampNanoseconds(_) => DType::TimestampNs,
        StoreAttrModel::Plain(v) => attr_dtype(v),
    }
}

/// The value an array file holds for a value of the store.
pub open spec fn stored_form(value: StoreAttrModel) -> AttrModel {
    match value {
        StoreAttrModel::TimestampNanoseconds(n) => AttrModel::String(rfc3339_text(n)),
        StoreAttrModel::Plain(v) => v,
    }
}

/// The value of the store that an array file's value stands for.
pub open spec fn restored(value: AttrModel) -> StoreAttrModel {
    match value {
        AttrModel::String(text) => match rfc3339_nanos(text) {
            Some(n) => StoreAttrModel::TimestampNanoseconds(n),
            None => StoreAttrModel::Plain(value),
        },
        _ => StoreAttrModel::Plain(value),
    }
}

/// A string that reads as an RFC 3339 timestamp.
pub open spec fn reads_as_timestamp(value: StoreAttrModel) -> bool {
    value matches StoreAttrModel::Plain(AttrModel::String(text)) && rfc3339_nanos(text) is Some
}

impl Clone for StoreAttr {
    fn clone(&self) -> (copy: Self)
        ensures
            copy@ == self@,
    {
        match self {
            StoreAttr::TimestampNanoseconds(n) => StoreAttr::TimestampNanoseconds(*n),
            StoreAttr::Plain(v) => StoreAttr::Plain(v.clone()),
        }
    }
}

impl StoreAttr {
    /// Whether two values are of one variant and hold the same.
    pub fn same(&self, other: &StoreAttr) -> (same: bool)
        ensures
            same == (self@ == other@),
    {
        match (self, other) {
            (StoreAttr::TimestampNanoseconds(a), StoreAttr::TimestampNanoseconds(b)) => *a == *b,
            (StoreAttr::Plain(a), StoreAttr::Plain(b)) => a.same(b),
            _ => false,
        }
    }

    /// The type this value occupies: `TimestampNs` for a timestamp.
    pub fn dtype(&self) -> (d: DType)
        ensures
            d == store_attr_dtype(self@),
    {
        match self {
            StoreAttr::TimestampNanoseconds(_) => DType::TimestampNs,
            StoreAttr::Plain(v) => v.dtype(),
        }
    }

    /// The value an array file holds for this one. Reading it back gives this
    /// value again, unless it is a string that reads as a timestamp.
    pub fn into_stored(self) -> (stored: Attr)
        ensures
            stored@ == stored_form(self@),
            !reads_as_timestamp(self@) ==> restored(stored@) == self@,
    {
        match self {
            StoreAttr::TimestampNanoseconds(n) => Attr::String(timestamp_ns_to_rfc3339(n)),
            StoreAttr::Plain(v) => v,
        }
    }

    /// The value that an array file's value stands for.
    pub fn from_stored(value: Attr) -> (restored_value: Self)
        ensures
            restored_value@ == restored(value@),
    {
        match value {
            Attr::String(text) => match rfc3339_to_timestamp_ns(text.as_str()) {
                Some(n) => StoreAttr::TimestampNanoseconds(n),
                None => StoreAttr::Plain(Attr::String(text)),
            },
            other => StoreAttr::Plain(other),
        }
    }
}

/// Every value but a string is stored and read as it is. A string is stored as
/// it is, and read as a timestamp exactly where it parses as one. A timestamp is
/// stored as its text, and read back where the text parses to it.
pub proof fn law_values_survive_storage(value: AttrModel, text: Seq<char>, n: i64)
    ensures
        stored_form(StoreAttrModel::Plain(value)) == value,
        value !is String ==> restored(value) == StoreAttrModel::Plain(value),
        rfc3339_nanos(text) is None ==> restored(AttrModel::String(text)) == StoreAttrModel::Plain(
            AttrModel::String(text),
        ),
        rfc3339_nanos(text) == Some(n) ==> restored(AttrModel::String(text))
            == StoreAttrModel::TimestampNanoseconds(n),
        stored_form(StoreAttrModel::TimestampNanoseconds(n)) == AttrModel::String(rfc3339_text(n)),
        rfc3339_nanos(rfc3339_text(n)) == Some(n) ==> restored(
            stored_form(StoreAttrModel::TimestampNanoseconds(n)),
        ) == StoreAttrModel::TimestampNanoseconds(n),
{
}

/// The type of a value is that of a timestamp for a timestamp alone. Every other
/// value has the type of what it holds.
pub proof fn law_timestamps_have_their_own_type(value: StoreAttrModel)
    ensures
        store_attr_dtype(value) is TimestampNs <==> value is TimestampNanoseconds,
        value matches StoreAttrModel::Plain(v) ==> store_attr_dtype(value) == attr_dtype(v),
{
}

} // verus!
