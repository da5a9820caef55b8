//! Element and value types, and how two types widen to one that describes
//! both.

use crate::text::{decimal, decimal_text};
use vstd::prelude::*;

verus! {

/// The type of an array element or of an attribute value.
#[derive(Debug, PartialEq, Eq)]
pub enum DType {
    /// Boolean.
    Bool,
    /// Signed 8-bit integer.
    Int8,
    /// Signed 16-bit integer.
    Int16,
    /// Signed 32-bit integer.
    Int32,
    /// Signed 64-bit integer.
    Int64,
    /// Unsigned 8-bit integer.
    UInt8,
    /// Unsigned 16-bit integer.
    UInt16,
    /// Unsigned 32-bit integer.
    UInt32,
    /// Unsigned 64-bit integer.
    UInt64,
    /// 32-bit float.
    Float32,
    /// 64-bit float.
    Float64,
    /// UTF-8 string.
    String,
    /// Variable-length binary.
    Binary,
    /// Nanoseconds since the Unix epoch.
    TimestampNs,
    /// A list of a fixed number of elements.
    FixedSizeList {
        /// The element type.
        child: Box<DType>,
        /// How many elements each value has.
        size: u32,
    },
    /// A list of any number of elements.
    List {
        /// The element type.
        child: Box<DType>,
    },
}

impl Clone for DType {
    fn clone(&self) -> (copy: Self)
        ensures
            copy == *self,
        decreases self,
    {
        match self {
            DType::Bool => DType::Bool,
            DType::Int8 => DType::Int8,
            DType::Int16 => DType::Int16,
            DType::Int32 => DType::Int32,
            DType::Int64 => DType::Int64,
            DType::UInt8 => DType::UInt8,
            DType::UInt16 => DType::UInt16,
            DType::UInt32 => DType::UInt32,
            DType::UInt64 => DType::UInt64,
            DType::Float32 => DType::Float32,
            DType::Float64 => DType::Float64,
            DType::String => DType::String,
            DType::Binary => DType::Binary,
            DType::TimestampNs => DType::TimestampNs,
            DType::FixedSizeList { child, size } => DType::FixedSizeList {
                child: Box::new((&**child).clone()),
                size: *size,
            },
            DType::List { child } => DType::List { child: Box::new((&**child).clone()) },
        }
    }
}

/// The place of a type's kind in the order of the variants.
pub open spec fn kind_of(d: DType) -> nat {
    match d {
        DType::Bool => 0,
        DType::Int8 => 1,
        DType::Int16 => 2,
        DType::Int32 => 3,
        DType::Int64 => 4,
        DType::UInt8 => 5,
        DType::UInt16 => 6,
        DType::UInt32 => 7,
        DType::UInt64 => 8,
        DType::Float32 => 9,
        DType::Float64 => 10,
        DType::String => 11,
        DType::Binary => 12,
        DType::TimestampNs => 13,
        DType::FixedSizeList { .. } => 14,
        DType::List { .. } => 15,
    }
}

/// The number of a type's kind.
pub fn kind_number(d: &DType) -> (r: u8)
    ensures
        r == kind_of(*d),
{
    match d {
        DType::Bool => 0,
        DType::Int8 => 1,
        DType::Int16 => 2,
        DType::Int32 => 3,
        DType::Int64 => 4,
        DType::UInt8 => 5,
        DType::UInt16 => 6,
        DType::UInt32 => 7,
        DType::UInt64 => 8,
        DType::Float32 => 9,
        DType::Float64 => 10,
        DType::String => 11,
        DType::Binary => 12,
        DType::TimestampNs => 13,
        DType::FixedSizeList { .. } => 14,
        DType::List { .. } => 15,
    }
}

/// The text that shows a type in a report.
pub open spec fn shown(d: DType) -> Seq<char>
    decreases d,
{
    match d {
        DType::Bool => "Bool"@,
        DType::Int8 => "Int8"@,
        DType::Int16 => "Int16"@,
        DType::Int32 => "Int32"@,
        DType::Int64 => "Int64"@,
        DType::UInt8 => "UInt8"@,
        DType::UInt16 => "UInt16"@,
        DType::UInt32 => "UInt32"@,
        DType::UInt64 => "UInt64"@,
        DType::Float32 => "Float32"@,
        DType::Float64 => "Float64"@,
        DType::String => "String"@,
        DType::Binary => "Binary"@,
        DType::TimestampNs => "TimestampNs"@,
        DType::FixedSizeList { child, size } => {
            "FixedSizeList { child: "@ + shown(*child) + ", size: "@ + decimal(size as nat) + " }"@
        },
        DType::List { child } => "List { child: "@ + shown(*child) + " }"@,
    }
}

/// A number type: its kind and its width in bits.
#[derive(Clone, Copy, PartialEq, Eq, Structural)]
pub enum Numeric {
    /// Unsigned integer.
    UInt(u32),
    /// Signed integer.
    Int(u32),
    /// Floating point.
    Float(u32),
}

/// A number type a [`DType`] can have.
pub open spec fn proper(n: Numeric) -> bool {
    match n {
        Numeric::UInt(w) | Numeric::Int(w) => w == 8 || w == 16 || w == 32 || w == 64,
        Numeric::Float(w) => w == 32 || w == 64,
    }
}

/// The number type of a type, where it is one.
pub open spec fn numeric_of(d: DType) -> Option<Numeric> {
    match d {
        DType::UInt8 => Some(Numeric::UInt(8)),
        DType::UInt16 => Some(Numeric::UInt(16)),
        DType::UInt32 => Some(Numeric::UInt(32)),
        DType::UInt64 => Some(Numeric::UInt(64)),
        DType::Int8 => Some(Numeric::Int(8)),
        DType::Int16 => Some(Numeric::Int(16)),
        DType::Int32 => Some(Numeric::Int(32)),
        DType::Int64 => Some(Numeric::Int(64)),
        DType::Float32 => Some(Numeric::Float(32)),
        DType::Float64 => Some(Numeric::Float(64)),
        _ => None,
    }
}

/// The type of a number type. A width that no type has counts as the widest.
pub open spec fn dtype_of(n: Numeric) -> DType {
    match n {
        Numeric::UInt(w) => if w == 8 {
            DType::UInt8
        } else if w == 16 {
            DType::UInt16
        } else if w == 32 {
            DType::UInt32
        } else {
            DType::UInt64
        },
        Numeric::Int(w) => if w == 8 {
            DType::Int8
        } else if w == 16 {
            DType::Int16
        } else if w == 32 {
            DType::Int32
        } else {
            DType::Int64
        },
        Numeric::Float(w) => if w == 32 {
            DType::Float32
        } else {
            DType::Float64
        },
    }
}

/// A 32-bit float holds every value of the type: it has a mantissa of 24 bits.
pub open spec fn fits_float32(n: Numeric) -> bool {
    match n {
        Numeric::UInt(w) | Numeric::Int(w) => w < 32,
        Numeric::Float(w) => w == 32,
    }
}

/// The larger of two widths.
pub open spec fn wider(a: int, b: int) -> u32 {
    (if a < b {
        b
    } else {
        a
    }) as u32
}

/// The number type that describes both.
///
/// With a float the result is a float. Two integers of one sign give the wider
/// one, and a mixed pair gives a signed type of twice the unsigned width, up to
/// 64 bits.
pub open spec fn widened_numeric(a: Numeric, b: Numeric) -> Numeric {
    match (a, b) {
        (Numeric::Int(x), Numeric::Int(y)) => Numeric::Int(wider(x as int, y as int)),
        (Numeric::UInt(x), Numeric::UInt(y)) => Numeric::UInt(wider(x as int, y as int)),
        (Numeric::Int(i), Numeric::UInt(u)) | (Numeric::UInt(u), Numeric::Int(i)) => {
            Numeric::Int(
                wider(
                    i as int,
                    if u < 32 {
                        2 * u
                    } else {
                        64
                    },
                ),
            )
        },
        _ => Numeric::Float(
            if fits_float32(a) && fits_float32(b) {
                32
            } else {
                64
            },
        ),
    }
}

/// The type that describes both, where two types align.
pub open spec fn widened(a: DType, b: DType) -> Option<DType>
    decreases a,
{
    if a == b {
        Some(a)
    } else {
        match (numeric_of(a), numeric_of(b)) {
            (Some(x), Some(y)) => Some(dtype_of(widened_numeric(x, y))),
            _ => match (a, b) {
                (DType::String, DType::TimestampNs) | (DType::TimestampNs, DType::String) => Some(
                    DType::String,
                ),
                (DType::List { child: x }, DType::List { child: y }) => match widened(*x, *y) {
                    Some(z) => Some(DType::List { child: Box::new(z) }),
                    None => None,
                },
                _ => None,
            },
        }
    }
}

/// Whether two types widen to one.
pub open spec fn align(a: DType, b: DType) -> bool {
    widened(a, b) is Some
}

/// A type widens with itself to itself.
pub proof fn law_widening_is_idempotent(a: DType)
    ensures
        widened(a, a) == Some(a),
{
}

/// The order of two types does not matter.
pub proof fn law_widening_is_commutative(a: DType, b: DType)
    ensures
        widened(a, b) == widened(b, a),
    decreases a,
{
    match (a, b) {
        (DType::List { child: x }, DType::List { child: y }) => {
            law_widening_is_commutative(*x, *y);
        },
        _ => {},
    }
}

/// Types fall into classes: two types align if and only if they are of one
/// class, and the widened type stays in it.
pub proof fn law_alignment_is_an_equivalence(a: DType, b: DType, c: DType)
    ensures
        align(a, a),
        align(a, b) ==> align(b, a),
        align(a, b) && align(b, c) ==> align(a, c),
        align(a, b) ==> align(widened(a, b).unwrap(), c) == align(a, c),
        align(a, b) ==> align(c, widened(a, b).unwrap()) == align(c, a),
    decreases a,
{
    law_widening_is_commutative(a, b);
    match (a, b) {
        (DType::List { child: x }, DType::List { child: y }) => {
            match c {
                DType::List { child: z } => {
                    law_alignment_is_an_equivalence(*x, *y, *z);
                },
                _ => {},
            }
        },
        _ => {
            match (a, c) {
                (DType::List { child: x }, DType::List { child: z }) => {
                    law_alignment_is_an_equivalence(*x, *x, *z);
                },
                _ => {},
            }
        },
    }
}

/// The least number an integer type holds.
pub open spec fn least(n: Numeric) -> int {
    match n {
        Numeric::UInt(_) => 0,
        Numeric::Int(w) => if w == 8 {
            -0x80
        } else if w == 16 {
            -0x8000
        } else if w == 32 {
            -0x8000_0000
        } else {
            -0x8000_0000_0000_0000
        },
        Numeric::Float(_) => 0,
    }
}

/// The greatest number an integer type holds.
pub open spec fn greatest(n: Numeric) -> int {
    match n {
        Numeric::UInt(w) => if w == 8 {
            0xff
        } else if w == 16 {
            0xffff
        } else if w == 32 {
            0xffff_ffff
        } else {
            0xffff_ffff_ffff_ffff
        },
        Numeric::Int(_) => -1 - least(n),
        Numeric::Float(_) => 0,
    }
}

/// Two integer types widen to one that holds the numbers of both, except that
/// no signed type holds those of `UInt64`.
pub proof fn law_widened_integers_hold_both(a: Numeric, b: Numeric)
    requires
        proper(a),
        proper(b),
        !(a is Float),
        !(b is Float),
        a == Numeric::UInt(64) ==> b is UInt,
        b == Numeric::UInt(64) ==> a is UInt,
    ensures
        proper(widened_numeric(a, b)),
        !(widened_numeric(a, b) is Float),
        least(widened_numeric(a, b)) <= least(a),
        least(widened_numeric(a, b)) <= least(b),
        greatest(a) <= greatest(widened_numeric(a, b)),
        greatest(b) <= greatest(widened_numeric(a, b)),
{
}

/// Number types of one kind stand for the types they were taken from.
pub proof fn law_numeric_roundtrip(d: DType, n: Numeric)
    ensures
        numeric_of(d) is Some ==> dtype_of(numeric_of(d).unwrap()) == d && proper(
            numeric_of(d).unwrap(),
        ),
        proper(n) ==> numeric_of(dtype_of(n)) == Some(n),
{
}

impl DType {
    /// Whether two types are the same type.
    pub fn same(&self, other: &DType) -> (same: bool)
        ensures
            same == (*self == *other),
        decreases self,
    {
        match (self, other) {
            (
                DType::FixedSizeList { child: a, size: m },
                DType::FixedSizeList { child: b, size: n },
            ) => { *m == *n && (&**a).same(&**b) },
            (DType::List { child: a }, DType::List { child: b }) => (&**a).same(&**b),
            _ => kind_number(self) == kind_number(other),
        }
    }

    /// The text that shows this type in a report.
    pub fn show(&self) -> (text: String)
        ensures
            text@ == shown(*self),
        decreases self,
    {
        match self {
            DType::Bool => "Bool".to_owned(),
            DType::Int8 => "Int8".to_owned(),
            DType::Int16 => "Int16".to_owned(),
            DType::Int32 => "Int32".to_owned(),
            DType::Int64 => "Int64".to_owned(),
            DType::UInt8 => "UInt8".to_owned(),
            DType::UInt16 => "UInt16".to_owned(),
            DType::UInt32 => "UInt32".to_owned(),
            DType::UInt64 => "UInt64".to_owned(),
            DType::Float32 => "Float32".to_owned(),
            DType::Float64 => "Float64".to_owned(),
            DType::String => "String".to_owned(),
            DType::Binary => "Binary".to_owned(),
            DType::TimestampNs => "TimestampNs".to_owned(),
            DType::FixedSizeList { child, size } => {
                let mut text: String = "FixedSizeList { child: ".to_owned();
                text.append((&**child).show().as_str());
                text.append(", size: ");
                text.append(decimal_text(*size as u64).as_str());
                text.append(" }");
                text
            },
            DType::List { child } => {
                let mut text: String = "List { child: ".to_owned();
                text.append((&**child).show().as_str());
                text.append(" }");
                text
            },
        }
    }
}

/// The number type of a type, where it is one.
pub fn as_numeric(d: &DType) -> (n: Option<Numeric>)
    ensures
        n == numeric_of(*d),
{
    match d {
        DType::UInt8 => Some(Numeric::UInt(8)),
        DType::UInt16 => Some(Numeric::UInt(16)),
        DType::UInt32 => Some(Numeric::UInt(32)),
        DType::UInt64 => Some(Numeric::UInt(64)),
        DType::Int8 => Some(Numeric::Int(8)),
        DType::Int16 => Some(Numeric::Int(16)),
        DType::Int32 => Some(Numeric::Int(32)),
        DType::Int64 => Some(Numeric::Int(64)),
        DType::Float32 => Some(Numeric::Float(32)),
        DType::Float64 => Some(Numeric::Float(64)),
        _ => None,
    }
}

/// The type of a number type. A width that no type has counts as the widest.
pub fn from_numeric(n: Numeric) -> (d: DType)
    ensures
        d == dtype_of(n),
{
    match n {
        Numeric::UInt(8) => DType::UInt8,
        Numeric::UInt(16) => DType::UInt16,
        Numeric::UInt(32) => DType::UInt32,
        Numeric::UInt(_) => DType::UInt64,
        Numeric::Int(8) => DType::Int8,
        Numeric::Int(16) => DType::Int16,
        Numeric::Int(32) => DType::Int32,
        Numeric::Int(_) => DType::Int64,
        Numeric::Float(32) => DType::Float32,
        Numeric::Float(_) => DType::Float64,
    }
}

fn max_width(a: u32, b: u32) -> (w: u32)
    ensures
        w == wider(a as int, b as int),
{
    if a < b {
        b
    } else {
        a
    }
}

fn in_float32(n: Numeric) -> (fits: bool)
    ensures
        fits == fits_float32(n),
{
    match n {
        Numeric::UInt(w) | Numeric::Int(w) => w < 32,
        Numeric::Float(w) => w == 32,
    }
}

/// The number type that describes both.
pub fn widen_numeric(a: Numeric, b: Numeric) -> (n: Numeric)
    ensures
        n == widened_numeric(a, b),
{
    match (a, b) {
        (Numeric::Int(x), Numeric::Int(y)) => Numeric::Int(max_width(x, y)),
        (Numeric::UInt(x), Numeric::UInt(y)) => Numeric::UInt(max_width(x, y)),
        (Numeric::Int(i), Numeric::UInt(u)) | (Numeric::UInt(u), Numeric::Int(i)) => {
            let doubled: u32 = if u < 32 {
                2 * u
            } else {
                64
            };
            Numeric::Int(max_width(i, doubled))
        },
        _ => {
            if in_float32(a) && in_float32(b) {
                Numeric::Float(32)
            } else {
                Numeric::Float(64)
            }
        },
    }
}

/// Merges two types into one that describes both, or `None` if they do not
/// align. Widening is allowed within number types, between `String` and
/// `TimestampNs`, which merge to `String`, and element-wise between two lists.
pub fn widen_dtype(a: &DType, b: &DType) -> (wide: Option<DType>)
    ensures
        wide == widened(*a, *b),
    decreases a,
{
    if a.same(b) {
        return Some(a.clone());
    }
    match (as_numeric(a), as_numeric(b)) {
        (Some(x), Some(y)) => {
            return Some(from_numeric(widen_numeric(x, y)));
        },
        _ => {},
    }
    match (a, b) {
        (DType::String, DType::TimestampNs) | (DType::TimestampNs, DType::String) => Some(
            DType::String,
        ),
        (DType::List { child: x }, DType::List { child: y }) => match widen_dtype(&**x, &**y) {
            Some(z) => Some(DType::List { child: Box::new(z) }),
            None => None,
        },
        _ => None,
    }
}

/// The integer types hold the numbers of the machine types of their names.
pub proof fn law_integer_types_hold_the_machine_numbers(d: DType)
    ensures
        numeric_of(d) matches Some(n) ==> (!(n is Float) ==> (least(n), greatest(n)) == match d {
            DType::Int8 => (i8::MIN as int, i8::MAX as int),
            DType::Int16 => (i16::MIN as int, i16::MAX as int),
            DType::Int32 => (i32::MIN as int, i32::MAX as int),
            DType::Int64 => (i64::MIN as int, i64::MAX as int),
            DType::UInt8 => (0, u8::MAX as int),
            DType::UInt16 => (0, u16::MAX as int),
            DType::UInt32 => (0, u32::MAX as int),
            _ => (0, u64::MAX as int),
        }),
        numeric_of(d) matches Some(n) ==> (n is Float ==> d is Float32 || d is Float64),
        numeric_of(d) is None <==> d is Bool || d is String || d is Binary || d is TimestampNs
            || d is List || d is FixedSizeList,
{
}

/// Which types align: number types among themselves, strings with timestamps,
/// and lists whose elements do. Every other type aligns with itself alone.
pub proof fn law_what_aligns(a: DType, b: DType)
    ensures
        align(a, b) <==> {
            ||| a == b
            ||| numeric_of(a) is Some && numeric_of(b) is Some
            ||| a is String && b is TimestampNs
            ||| a is TimestampNs && b is String
            ||| a matches DType::List { child: x } && b matches DType::List { child: y } && align(
                *x,
                *y,
            )
        },
        a is String && b is TimestampNs ==> widened(a, b) == Some(DType::String),
        a matches DType::List { child: x } ==> (b matches DType::List { child: y } ==> (widened(
            *x,
            *y,
        ) matches Some(z) ==> widened(a, b) matches Some(DType::List { child }) && *child == z)),
{
}

/// Two integer types widen to the narrowest that holds the numbers of both:
/// every integer type that does holds all numbers of theirs. No signed type
/// holds those of `UInt64`, so with a signed type it widens to `Int64`.
pub proof fn law_widened_integers_are_the_narrowest(a: DType, b: DType, c: DType)
    requires
        numeric_of(a) matches Some(x) && !(x is Float),
        numeric_of(b) matches Some(y) && !(y is Float),
        numeric_of(c) matches Some(z) && !(z is Float),
    ensures
        widened(a, b) matches Some(w) && numeric_of(w) matches Some(n) && !(n is Float) && {
            let x = numeric_of(a).unwrap();
            let y = numeric_of(b).unwrap();
            let z = numeric_of(c).unwrap();
            let mixed = (a is UInt64 && y is Int) || (b is UInt64 && x is Int);
            &&& mixed ==> w is Int64
            &&& !mixed ==> least(n) <= least(x) && least(n) <= least(y) && greatest(x) <= greatest(
                n,
            ) && greatest(y) <= greatest(n)
            &&& least(z) <= least(x) && least(z) <= least(y) && greatest(x) <= greatest(z)
                && greatest(y) <= greatest(z) ==> least(z) <= least(n) && greatest(n) <= greatest(z)
        },
{
}

/// A number type widens with a float to a float: a 32-bit one where that holds
/// every number of both exactly, up to two to the power of 24, and else a
/// 64-bit one.
pub proof fn law_floats_widen_to_floats(a: DType, b: DType)
    requires
        a is Float32 || a is Float64,
        numeric_of(b) is Some,
    ensures
        ({
            let exact = a is Float32 && (b is Float32 || (!(b is Float64) && greatest(
                numeric_of(b).unwrap(),
            ) <= 0x100_0000));
            &&& exact ==> widened(a, b) == Some(DType::Float32)
            &&& !exact ==> widened(a, b) == Some(DType::Float64)
            &&& widened(b, a) == widened(a, b)
        }),
{
}

/// A widened type absorbs both types: widening it with either changes nothing.
/// What absorbs a type absorbs all that the type absorbs.
pub proof fn law_widened_types_absorb_both(a: DType, b: DType, c: DType)
    ensures
        widened(a, b) matches Some(w) ==> widened(w, a) == Some(w) && widened(w, b) == Some(w),
        widened(a, b) == Some(a) && widened(b, c) == Some(b) ==> widened(a, c) == Some(a),
    decreases a,
{
    match (a, b) {
        (DType::List { child: x }, DType::List { child: y }) => {
            law_widened_types_absorb_both(*x, *y, *x);
            match c {
                DType::List { child: z } => {
                    law_widened_types_absorb_both(*x, *y, *z);
                },
                _ => {},
            }
        },
        _ => {},
    }
}

/// A list is shown around its element type, with its length where that is fixed.
pub proof fn law_lists_show_their_elements(child: DType, size: u32)
    ensures
        shown(DType::List { child: Box::new(child) }) == "List { child: "@ + shown(child) + " }"@,
        shown(DType::FixedSizeList { child: Box::new(child), size }) == "FixedSizeList { child: "@
            + shown(child) + ", size: "@ + decimal(size as nat) + " }"@,
{
}

} // verus!
