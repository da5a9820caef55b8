//! Statistic values and their ordering.

use crate::schema::attr::{copy_list, Attr, AttrModel};
use crate::text::{
    bytes_before, bytes_come_before, lemma_bytes_before_transitive, lemma_bytes_before_trichotomy,
};
use std::cmp::Ordering;
use vstd::prelude::*;
use vstd::utf8::encode_utf8;

verus! {

/// A minimum or maximum, in the type the statistic was computed with.
///
/// Values are not converted to a common type. A column whose datasets disagree
/// holds each dataset's own type; callers that want one buffer promote at the
/// boundary. A float is held by its bits.
#[derive(Debug, PartialEq, Eq)]
pub enum StatVal {
    /// Signed integer.
    Int(i64),
    /// Unsigned integer; also carries `Bool`, as 0/1.
    UInt(u64),
    /// Floating point, as its bits.
    Float(u64),
    /// String or binary, raw bytes in lexicographic order.
    Bytes(Vec<u8>),
    /// Nanoseconds since the Unix epoch.
    TimestampNs(i64),
}

/// What a statistic value is.
pub enum StatModel {
    /// Signed integer.
    Int(i64),
    /// Unsigned integer.
    UInt(u64),
    /// Floating point, as its bits.
    Float(u64),
    /// Raw bytes.
    Bytes(Seq<u8>),
    /// Nanoseconds since the Unix epoch.
    TimestampNs(i64),
}

impl View for StatVal {
    type V = StatModel;

    open spec fn view(&self) -> StatModel {
        match *self {
            StatVal::Int(v) => StatModel::Int(v),
            StatVal::UInt(v) => StatModel::UInt(v),
            StatVal::Float(v) => StatModel::Float(v),
            StatVal::Bytes(v) => StatModel::Bytes(v@),
            StatVal::TimestampNs(v) => StatModel::TimestampNs(v),
        }
    }
}

impl Clone for StatVal {
    fn clone(&self) -> (copy: Self)
        ensures
            copy@ == self@,
    {
        match self {
            StatVal::Int(v) => StatVal::Int(*v),
            StatVal::UInt(v) => StatVal::UInt(*v),
            StatVal::Float(v) => StatVal::Float(*v),
            StatVal::Bytes(v) => StatVal::Bytes(copy_list(v)),
            StatVal::TimestampNs(v) => StatVal::TimestampNs(*v),
        }
    }
}

/// The place of a 64-bit float in the total order of IEEE 754, from its bits:
/// negative NaN, negative numbers, negative zero, positive zero, positive
/// numbers, positive NaN.
pub open spec fn float_rank(bits: u64) -> int {
    if bits < 0x8000_0000_0000_0000 {
        bits as int
    } else {
        0x7fff_ffff_ffff_ffff - bits
    }
}

/// The order of two numbers.
pub open spec fn number_order(a: int, b: int) -> Ordering {
    if a < b {
        Ordering::Less
    } else if a == b {
        Ordering::Equal
    } else {
        Ordering::Greater
    }
}

/// The dictionary order of two byte strings.
pub open spec fn bytes_order(a: Seq<u8>, b: Seq<u8>) -> Ordering {
    if bytes_before(a, b) {
        Ordering::Less
    } else if a == b {
        Ordering::Equal
    } else {
        Ordering::Greater
    }
}

/// The rank of a value that is a number.
pub open spec fn number_of(v: StatModel) -> int {
    match v {
        StatModel::Int(x) => x as int,
        StatModel::UInt(x) => x as int,
        StatModel::Float(x) => float_rank(x),
        StatModel::Bytes(_) => 0,
        StatModel::TimestampNs(x) => x as int,
    }
}

/// Two values of one variant.
pub open spec fn alike(a: StatModel, b: StatModel) -> bool {
    match (a, b) {
        (StatModel::Int(_), StatModel::Int(_)) => true,
        (StatModel::UInt(_), StatModel::UInt(_)) => true,
        (StatModel::Float(_), StatModel::Float(_)) => true,
        (StatModel::Bytes(_), StatModel::Bytes(_)) => true,
        (StatModel::TimestampNs(_), StatModel::TimestampNs(_)) => true,
        _ => false,
    }
}

/// The order of two values; none where the variants differ.
pub open spec fn stat_order(a: StatModel, b: StatModel) -> Option<Ordering> {
    match (a, b) {
        (StatModel::Bytes(x), StatModel::Bytes(y)) => Some(bytes_order(x, y)),
        _ => if alike(a, b) {
            Some(number_order(number_of(a), number_of(b)))
        } else {
            None
        },
    }
}

/// The smaller of two values; the first where they are not comparable.
pub open spec fn lesser(a: StatModel, b: StatModel) -> StatModel {
    if stat_order(a, b) == Some(Ordering::Greater) {
        b
    } else {
        a
    }
}

/// The larger of two values; the first where they are not comparable.
pub open spec fn larger(a: StatModel, b: StatModel) -> StatModel {
    if stat_order(a, b) == Some(Ordering::Less) {
        b
    } else {
        a
    }
}

/// Values of one variant are totally ordered, and others are not comparable.
pub proof fn law_values_of_one_variant_are_totally_ordered(
    a: StatModel,
    b: StatModel,
    c: StatModel,
)
    ensures
        stat_order(a, b) is Some <==> alike(a, b),
        stat_order(a, b) == Some(Ordering::Equal) <==> a == b,
        stat_order(a, b) == Some(Ordering::Less) <==> stat_order(b, a) == Some(Ordering::Greater),
        stat_order(a, b) == Some(Ordering::Less) && stat_order(b, c) == Some(Ordering::Less)
            ==> stat_order(a, c) == Some(Ordering::Less),
{
    match (a, b) {
        (StatModel::Bytes(x), StatModel::Bytes(y)) => {
            lemma_bytes_before_trichotomy(x, y);
            lemma_bytes_before_trichotomy(y, x);
            match c {
                StatModel::Bytes(z) => {
                    if bytes_before(x, y) && bytes_before(y, z) {
                        lemma_bytes_before_transitive(x, y, z);
                    }
                },
                _ => {},
            }
        },
        _ => {},
    }
}

/// No NaN stands between two numbers: every positive NaN is above positive
/// infinity, and every negative NaN below negative infinity.
pub proof fn law_nan_sorts_outside_the_numbers(nan: u64, number: u64)
    requires
        // The magnitude of a NaN is above that of infinity, and that of a number is not.
        nan % 0x8000_0000_0000_0000 > 0x7ff0_0000_0000_0000,
        number % 0x8000_0000_0000_0000 <= 0x7ff0_0000_0000_0000,
    ensures
        nan < 0x8000_0000_0000_0000 ==> float_rank(number) < float_rank(nan),
        nan >= 0x8000_0000_0000_0000 ==> float_rank(nan) < float_rank(number),
{
}

fn float_before(a: u64, b: u64) -> (before: bool)
    ensures
        before == (float_rank(a) < float_rank(b)),
{
    let a_negative = a >= 0x8000_0000_0000_0000;
    let b_negative = b >= 0x8000_0000_0000_0000;
    if a_negative && b_negative {
        b < a
    } else if !a_negative && !b_negative {
        a < b
    } else {
        a_negative
    }
}

impl PartialOrd for StatVal {
    fn partial_cmp(&self, other: &StatVal) -> (order: Option<Ordering>) {
        match (self, other) {
            (StatVal::Int(a), StatVal::Int(b)) => {
                if *a < *b {
                    Some(Ordering::Less)
                } else if *a == *b {
                    Some(Ordering::Equal)
                } else {
                    Some(Ordering::Greater)
                }
            },
            (StatVal::UInt(a), StatVal::UInt(b)) => {
                if *a < *b {
                    Some(Ordering::Less)
                } else if *a == *b {
                    Some(Ordering::Equal)
                } else {
                    Some(Ordering::Greater)
                }
            },
            (StatVal::Float(a), StatVal::Float(b)) => {
                if float_before(*a, *b) {
                    Some(Ordering::Less)
                } else if *a == *b {
                    Some(Ordering::Equal)
                } else {
                    Some(Ordering::Greater)
                }
            },
            (StatVal::TimestampNs(a), StatVal::TimestampNs(b)) => {
                if *a < *b {
                    Some(Ordering::Less)
                } else if *a == *b {
                    Some(Ordering::Equal)
                } else {
                    Some(Ordering::Greater)
                }
            },
            (StatVal::Bytes(a), StatVal::Bytes(b)) => {
                proof {
                    lemma_bytes_before_trichotomy(a@, b@);
                    lemma_bytes_before_trichotomy(b@, a@);
                }
                if bytes_come_before(a.as_slice(), b.as_slice()) {
                    Some(Ordering::Less)
                } else if bytes_come_before(b.as_slice(), a.as_slice()) {
                    Some(Ordering::Greater)
                } else {
                    Some(Ordering::Equal)
                }
            },
            // Comparing across types is meaningless, so every comparison
            // operator answers `false`: the row is simply not a candidate.
            _ => None,
        }
    }
}

impl vstd::std_specs::cmp::PartialOrdSpecImpl for StatVal {
    open spec fn obeys_partial_cmp_spec() -> bool {
        true
    }

    open spec fn partial_cmp_spec(&self, other: &StatVal) -> Option<Ordering> {
        stat_order(self@, other@)
    }
}

/// The statistic of a scalar attribute value, where it is a scalar. `wide` is
/// the 64-bit form of a 32-bit float.
pub open spec fn scalar_stat(value: AttrModel, wide: u64) -> Option<StatModel> {
    match value {
        AttrModel::Bool(b) => Some(
            StatModel::UInt(
                if b {
                    1
                } else {
                    0
                },
            ),
        ),
        AttrModel::Int8(x) => Some(StatModel::Int(x as i64)),
        AttrModel::Int16(x) => Some(StatModel::Int(x as i64)),
        AttrModel::Int32(x) => Some(StatModel::Int(x as i64)),
        AttrModel::Int64(x) => Some(StatModel::Int(x)),
        AttrModel::UInt8(x) => Some(StatModel::UInt(x as u64)),
        AttrModel::UInt16(x) => Some(StatModel::UInt(x as u64)),
        AttrModel::UInt32(x) => Some(StatModel::UInt(x as u64)),
        AttrModel::UInt64(x) => Some(StatModel::UInt(x)),
        AttrModel::Float32(_) => Some(StatModel::Float(wide)),
        AttrModel::Float64(x) => Some(StatModel::Float(x)),
        AttrModel::String(s) => Some(StatModel::Bytes(encode_utf8(s))),
        AttrModel::Binary(b) => Some(StatModel::Bytes(b)),
        _ => None,
    }
}

impl StatVal {
    /// A scalar attribute value as a `StatVal`, or `None` for a list-valued
    /// attribute, which has no single point for range pruning. An attribute is
    /// one value per dataset, so its pruning cell is a point range `[v, v]`.
    ///
    /// Widths collapse to the index's variants: any signed integer to `Int`,
    /// any unsigned integer (and `Bool` as 0/1) to `UInt`, either float to
    /// `Float`, and strings and binary to `Bytes`. `wide` is the 64-bit form of
    /// the value where it is a 32-bit float, as bits.
    pub fn scalar_from_attribute(value: &Attr, wide: u64) -> (stat: Option<StatVal>)
        ensures
            match stat {
                Some(s) => scalar_stat(value@, wide) == Some(s@),
                None => scalar_stat(value@, wide) is None,
            },
    {
        match value {
            Attr::Bool(b) => Some(
                StatVal::UInt(
                    if *b {
                        1
                    } else {
                        0
                    },
                ),
            ),
            Attr::Int8(x) => Some(StatVal::Int(*x as i64)),
            Attr::Int16(x) => Some(StatVal::Int(*x as i64)),
            Attr::Int32(x) => Some(StatVal::Int(*x as i64)),
            Attr::Int64(x) => Some(StatVal::Int(*x)),
            Attr::UInt8(x) => Some(StatVal::UInt(*x as u64)),
            Attr::UInt16(x) => Some(StatVal::UInt(*x as u64)),
            Attr::UInt32(x) => Some(StatVal::UInt(*x as u64)),
            Attr::UInt64(x) => Some(StatVal::UInt(*x)),
            Attr::Float32(_) => Some(StatVal::Float(wide)),
            Attr::Float64(x) => Some(StatVal::Float(*x)),
            Attr::String(s) => Some(StatVal::Bytes(s.as_str().as_bytes_vec())),
            Attr::Binary(b) => Some(StatVal::Bytes(copy_list(b))),
            _ => None,
        }
    }

    /// The smaller of two values; keeps `self` when they are not comparable.
    pub fn min_with(self, other: StatVal) -> (least: StatVal)
        ensures
            least@ == lesser(self@, other@),
    {
        match self.partial_cmp(&other) {
            Some(Ordering::Greater) => other,
            _ => self,
        }
    }

    /// The larger of two values; keeps `self` when they are not comparable.
    pub fn max_with(self, other: StatVal) -> (most: StatVal)
        ensures
            most@ == larger(self@, other@),
    {
        match self.partial_cmp(&other) {
            Some(Ordering::Less) => other,
            _ => self,
        }
    }
}

/// Floats order by the numbers they stand for. The top bit of a double is its
/// sign, and the rest grows with the magnitude. So of two without the sign the
/// one with the smaller bits is less, of two with the sign the one with the
/// larger bits is, and every one with the sign is below every one without.
pub proof fn law_floats_order_by_value(a: u64, b: u64)
    ensures
        a < 0x8000_0000_0000_0000 && b < 0x8000_0000_0000_0000 ==> (stat_order(
            StatModel::Float(a),
            StatModel::Float(b),
        ) == Some(Ordering::Less) <==> a < b),
        a >= 0x8000_0000_0000_0000 && b >= 0x8000_0000_0000_0000 ==> (stat_order(
            StatModel::Float(a),
            StatModel::Float(b),
        ) == Some(Ordering::Less) <==> b < a),
        a >= 0x8000_0000_0000_0000 && b < 0x8000_0000_0000_0000 ==> stat_order(
            StatModel::Float(a),
            StatModel::Float(b),
        ) == Some(Ordering::Less),
        a < 0x8000_0000_0000_0000 && b >= 0x8000_0000_0000_0000 ==> stat_order(
            StatModel::Float(a),
            StatModel::Float(b),
        ) == Some(Ordering::Greater),
        stat_order(StatModel::Float(a), StatModel::Float(b)) == Some(Ordering::Less) <==> float_rank(
            a,
        ) < float_rank(b),
{
}

/// Whole numbers and timestamps order by value.
pub proof fn law_whole_numbers_order_by_value(a: i64, b: i64, x: u64, y: u64)
    ensures
        stat_order(StatModel::Int(a), StatModel::Int(b)) == Some(Ordering::Less) <==> a < b,
        stat_order(StatModel::TimestampNs(a), StatModel::TimestampNs(b)) == Some(Ordering::Less)
            <==> a < b,
        stat_order(StatModel::UInt(x), StatModel::UInt(y)) == Some(Ordering::Less) <==> x < y,
        stat_order(StatModel::Int(a), StatModel::Int(b)) == Some(Ordering::Greater) <==> b < a,
        stat_order(StatModel::TimestampNs(a), StatModel::TimestampNs(b)) == Some(Ordering::Greater)
            <==> b < a,
        stat_order(StatModel::UInt(x), StatModel::UInt(y)) == Some(Ordering::Greater) <==> y < x,
{
}

/// Bytes order as words in a dictionary: the first byte that differs decides,
/// and a string comes before every longer one that begins with it.
pub proof fn law_bytes_order_as_in_a_dictionary(a: Seq<u8>, b: Seq<u8>, k: int)
    requires
        0 <= k <= a.len(),
        k < b.len(),
        a.take(k) == b.take(k),
        k < a.len() ==> a[k] < b[k],
    ensures
        stat_order(StatModel::Bytes(a), StatModel::Bytes(b)) == Some(Ordering::Less),
        stat_order(StatModel::Bytes(b), StatModel::Bytes(a)) == Some(Ordering::Greater),
    decreases k,
{
    if k > 0 {
        assert(a[0] == a.take(k)[0] && b[0] == b.take(k)[0]);
        let x = a.drop_first();
        let y = b.drop_first();
        let shared = a.take(k).drop_first();
        assert(x.take(k - 1) =~= shared);
        assert(y.take(k - 1) =~= b.take(k).drop_first());
        law_bytes_order_as_in_a_dictionary(x, y, k - 1);
    }
    law_values_of_one_variant_are_totally_ordered(
        StatModel::Bytes(a),
        StatModel::Bytes(b),
        StatModel::Bytes(a),
    );
}

/// The smaller and the larger of two values are the two values, in order.
/// Where the variants differ, the first value stands for both.
pub proof fn law_smaller_and_larger_are_the_two_values(a: StatModel, b: StatModel)
    ensures
        (lesser(a, b) == a && larger(a, b) == b) || (lesser(a, b) == b && larger(a, b) == a) || (
        lesser(a, b) == a && larger(a, b) == a && !alike(a, b)),
        alike(a, b) ==> stat_order(lesser(a, b), larger(a, b)) != Some(Ordering::Greater),
        alike(a, b) ==> stat_order(lesser(a, b), larger(a, b)) is Some,
        !alike(a, b) ==> lesser(a, b) == a && larger(a, b) == a,
{
    law_values_of_one_variant_are_totally_ordered(a, b, a);
    law_values_of_one_variant_are_totally_ordered(b, a, b);
    law_values_of_one_variant_are_totally_ordered(a, a, a);
}

/// The whole number an attribute holds, where it holds one. A `true` counts as
/// one.
pub open spec fn whole_number(value: AttrModel) -> Option<int> {
    match value {
        AttrModel::Int8(x) => Some(x as int),
        AttrModel::Int16(x) => Some(x as int),
        AttrModel::Int32(x) => Some(x as int),
        AttrModel::Int64(x) => Some(x as int),
        AttrModel::UInt8(x) => Some(x as int),
        AttrModel::UInt16(x) => Some(x as int),
        AttrModel::UInt32(x) => Some(x as int),
        AttrModel::UInt64(x) => Some(x as int),
        AttrModel::Bool(b) => Some(
            if b {
                1
            } else {
                0
            },
        ),
        _ => None,
    }
}

/// The statistic of a scalar attribute is its value: the same whole number, the
/// same double, or the bytes of the text. A list has none.
pub proof fn law_a_scalar_statistic_is_the_value(value: AttrModel, wide: u64)
    ensures
        match scalar_stat(value, wide) {
            Some(StatModel::Int(n)) => whole_number(value) == Some(n as int) && !(value is Bool)
                && !(value is UInt8) && !(value is UInt16) && !(value is UInt32) && !(
            value is UInt64),
            Some(StatModel::UInt(n)) => whole_number(value) == Some(n as int) && !(value is Int8)
                && !(value is Int16) && !(value is Int32) && !(value is Int64),
            Some(StatModel::Float(bits)) => value == AttrModel::Float64(bits) || (
            value is Float32 && bits == wide),
            Some(StatModel::Bytes(bytes)) => value == AttrModel::Binary(bytes) || (
            value matches AttrModel::String(text) && bytes == encode_utf8(text)),
            Some(StatModel::TimestampNs(_)) => false,
            None => crate::schema::attr::attr_dtype(value) is List,
        },
{
}

} // verus!
