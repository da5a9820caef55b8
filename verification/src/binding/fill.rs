//! Which fill value a Python scalar gives an array.

use super::raised::{ErrorClass, Raised};
use crate::notation::dtype::{dtype_to_string, printed};
use crate::schema::array::{FillModel, FillValueS};
use crate::schema::dtype::{greatest, least, numeric_of, DType};
use crate::text::{signed_decimal, signed_text};
use vstd::prelude::*;

verus! {

/// A Python scalar. A `bool` is no `int` here. `T` is the form of a text:
/// `String` in a value, the characters in a contract.
#[derive(Debug, Clone, PartialEq, Eq)]
pub enum Scalar<T = String> {
    /// A `bool`.
    Bool(bool),
    /// An `int`: the number, where 128 bits hold it, and the bits of its
    /// double, where it has one.
    Int {
        /// The number.
        whole: Option<i128>,
        /// The bits of the double that stands for it.
        float: Option<u64>,
    },
    /// A `float`, as its bits.
    Float(u64),
    /// A `str`.
    Text(T),
    /// Anything else.
    Other,
}

impl View for Scalar<String> {
    type V = Scalar<Seq<char>>;

    open spec fn view(&self) -> Scalar<Seq<char>> {
        match *self {
            Scalar::Bool(b) => Scalar::Bool(b),
            Scalar::Int { whole, float } => Scalar::Int { whole, float },
            Scalar::Float(bits) => Scalar::Float(bits),
            Scalar::Text(t) => Scalar::Text(t@),
            Scalar::Other => Scalar::Other,
        }
    }
}

/// Why a scalar gives no fill value.
#[derive(Debug, Clone, PartialEq, Eq)]
pub enum Refusal<T = String> {
    /// The array does not take the scalar.
    Raise(Raised<T>),
    /// The number does not fit the machine type that it is read into. Python
    /// reports that itself.
    Unreadable,
}

impl View for Refusal<String> {
    type V = Refusal<Seq<char>>;

    open spec fn view(&self) -> Refusal<Seq<char>> {
        match *self {
            Refusal::Raise(raised) => Refusal::Raise(raised@),
            Refusal::Unreadable => Refusal::Unreadable,
        }
    }
}

/// The bounds of an integer type. A timestamp is a signed 64-bit number.
pub open spec fn bounds(dtype: DType) -> (int, int) {
    match dtype {
        DType::Int8 => (i8::MIN as int, i8::MAX as int),
        DType::Int16 => (i16::MIN as int, i16::MAX as int),
        DType::Int32 => (i32::MIN as int, i32::MAX as int),
        DType::UInt8 => (0, u8::MAX as int),
        DType::UInt16 => (0, u16::MAX as int),
        DType::UInt32 => (0, u32::MAX as int),
        DType::UInt64 => (0, u64::MAX as int),
        _ => (i64::MIN as int, i64::MAX as int),
    }
}

/// The refusal of a scalar of the wrong type.
pub open spec fn wrong_type(dtype: DType, expected: Seq<char>, given: Seq<char>) -> Refusal<
    Seq<char>,
> {
    Refusal::Raise(
        Raised {
            class: ErrorClass::Type,
            message: "fill_value for "@ + printed(dtype) + " array must be "@ + expected + ", got "@
                + given,
        },
    )
}

/// The refusal of a number.
pub open spec fn wrong_number(n: int, complaint: Seq<char>, rest: Seq<char>) -> Refusal<
    Seq<char>,
> {
    Refusal::Raise(
        Raised {
            class: ErrorClass::Overflow,
            message: "fill_value "@ + signed_decimal(n) + complaint + rest,
        },
    )
}

/// The refusal of any fill value.
pub open spec fn unsupported(message: Seq<char>) -> Refusal<Seq<char>> {
    Refusal::Raise(Raised { class: ErrorClass::NotImplemented, message })
}

/// The fill value a scalar gives an array of a type. Nothing is cast in
/// silence: an integer array takes an `int` in its range, a boolean array a
/// `bool`, a string array a `str`, and a float array a `float` or an `int`.
pub open spec fn filled(value: Scalar<Seq<char>>, dtype: DType, given: Seq<char>) -> Result<
    FillModel,
    Refusal<Seq<char>>,
> {
    match dtype {
        DType::Bool => match value {
            Scalar::Bool(b) => Ok(FillModel::Bool(b)),
            _ => Err(wrong_type(dtype, "a bool"@, given)),
        },
        DType::Int8 | DType::Int16 | DType::Int32 | DType::Int64 | DType::TimestampNs => {
            match value {
                Scalar::Int { whole: Some(n), .. } if i64::MIN <= n <= i64::MAX => {
                    if n < bounds(dtype).0 || n > bounds(dtype).1 {
                        Err(wrong_number(n as int, " is out of range for "@, printed(dtype)))
                    } else if dtype is TimestampNs {
                        Ok(FillModel::TimestampNs(n as i64))
                    } else {
                        Ok(FillModel::Int(n as i64))
                    }
                },
                Scalar::Int { .. } => Err(Refusal::Unreadable),
                _ => Err(wrong_type(dtype, "an int"@, given)),
            }
        },
        DType::UInt8 | DType::UInt16 | DType::UInt32 | DType::UInt64 => match value {
            Scalar::Int { whole: Some(n), .. } => if n < 0 {
                Err(wrong_number(n as int, " is negative; "@, printed(dtype) + " is unsigned"@))
            } else if n > bounds(dtype).1 {
                Err(wrong_number(n as int, " is out of range for "@, printed(dtype)))
            } else {
                Ok(FillModel::UInt(n as u64))
            },
            Scalar::Int { .. } => Err(Refusal::Unreadable),
            _ => Err(wrong_type(dtype, "a non-negative int"@, given)),
        },
        DType::Float32 | DType::Float64 => match value {
            Scalar::Float(bits) => Ok(FillModel::Float(bits)),
            Scalar::Int { float: Some(bits), .. } => Ok(FillModel::Float(bits)),
            Scalar::Int { .. } => Err(Refusal::Unreadable),
            _ => Err(wrong_type(dtype, "a float or int"@, given)),
        },
        DType::String => match value {
            Scalar::Text(t) => Ok(FillModel::String(t)),
            _ => Err(wrong_type(dtype, "a str"@, given)),
        },
        DType::Binary => Err(unsupported("fill_value for binary arrays is not yet supported"@)),
        DType::List { .. } | DType::FixedSizeList { .. } => Err(
            unsupported("fill_value for list / fixed_size_list arrays is not supported"@),
        ),
    }
}

fn type_err(dtype: &DType, expected: &str, given: &str) -> (refusal: Refusal)
    ensures
        refusal@ == wrong_type(*dtype, expected@, given@),
{
    let mut message: String = "fill_value for ".to_owned();
    message.append(dtype_to_string(dtype).as_str());
    message.append(" array must be ");
    message.append(expected);
    message.append(", got ");
    message.append(given);
    Refusal::Raise(Raised { class: ErrorClass::Type, message })
}

fn range_err(n: i128, dtype: &DType) -> (refusal: Refusal)
    ensures
        refusal@ == wrong_number(n as int, " is out of range for "@, printed(*dtype)),
{
    let mut message: String = "fill_value ".to_owned();
    message.append(signed_text(n).as_str());
    message.append(" is out of range for ");
    message.append(dtype_to_string(dtype).as_str());
    Refusal::Raise(Raised { class: ErrorClass::Overflow, message })
}

fn sign_err(n: i128, dtype: &DType) -> (refusal: Refusal)
    ensures
        refusal@ == wrong_number(
            n as int,
            " is negative; "@,
            printed(*dtype) + " is unsigned"@,
        ),
{
    let mut message: String = "fill_value ".to_owned();
    message.append(signed_text(n).as_str());
    message.append(" is negative; ");
    message.append(dtype_to_string(dtype).as_str());
    message.append(" is unsigned");
    let ghost start = "fill_value "@ + signed_decimal(n as int) + " is negative; "@;
    assert(start + printed(*dtype) + " is unsigned"@ =~= start + (printed(*dtype)
        + " is unsigned"@));
    Refusal::Raise(Raised { class: ErrorClass::Overflow, message })
}

fn not_supported(message: &str) -> (refusal: Refusal)
    ensures
        refusal@ == unsupported(message@),
{
    Refusal::Raise(Raised { class: ErrorClass::NotImplemented, message: message.to_owned() })
}

fn highest(dtype: &DType) -> (hi: i128)
    ensures
        hi == bounds(*dtype).1,
{
    match dtype {
        DType::Int8 => 0x7f,
        DType::Int16 => 0x7fff,
        DType::Int32 => 0x7fff_ffff,
        DType::UInt8 => 0xff,
        DType::UInt16 => 0xffff,
        DType::UInt32 => 0xffff_ffff,
        DType::UInt64 => 0xffff_ffff_ffff_ffff,
        _ => 0x7fff_ffff_ffff_ffff,
    }
}

/// The fill value that a Python scalar gives an array of a type. `given` is
/// the name of the scalar's type, for the report.
pub fn py_to_fill_value(value: &Scalar, dtype: &DType, given: &str) -> (fill: Result<
    FillValueS,
    Refusal,
>)
    ensures
        match fill {
            Ok(fill) => filled(value@, *dtype, given@) == Ok::<FillModel, Refusal<Seq<char>>>(
                fill@,
            ),
            Err(refusal) => filled(value@, *dtype, given@) == Err::<
                FillModel,
                Refusal<Seq<char>>,
            >(refusal@),
        },
{
    match dtype {
        DType::Bool => match value {
            Scalar::Bool(b) => Ok(FillValueS::Bool(*b)),
            _ => Err(type_err(dtype, "a bool", given)),
        },
        DType::Int8 | DType::Int16 | DType::Int32 | DType::Int64 | DType::TimestampNs => {
            match value {
                Scalar::Int { whole, .. } => {
                    let n: i128 = match whole {
                        Some(n) => *n,
                        None => {
                            return Err(Refusal::Unreadable);
                        },
                    };
                    if n < -0x8000_0000_0000_0000 || n > 0x7fff_ffff_ffff_ffff {
                        return Err(Refusal::Unreadable);
                    }
                    let hi: i128 = highest(dtype);
                    if n < -hi - 1 || n > hi {
                        return Err(range_err(n, dtype));
                    }
                    match dtype {
                        DType::TimestampNs => Ok(FillValueS::TimestampNs(n as i64)),
                        _ => Ok(FillValueS::Int(n as i64)),
                    }
                },
                _ => Err(type_err(dtype, "an int", given)),
            }
        },
        DType::UInt8 | DType::UInt16 | DType::UInt32 | DType::UInt64 => match value {
            Scalar::Int { whole, .. } => {
                let n: i128 = match whole {
                    Some(n) => *n,
                    None => {
                        return Err(Refusal::Unreadable);
                    },
                };
                if n < 0 {
                    return Err(sign_err(n, dtype));
                }
                if n > highest(dtype) {
                    return Err(range_err(n, dtype));
                }
                Ok(FillValueS::UInt(n as u64))
            },
            _ => Err(type_err(dtype, "a non-negative int", given)),
        },
        DType::Float32 | DType::Float64 => match value {
            Scalar::Float(bits) => Ok(FillValueS::Float(*bits)),
            Scalar::Int { float, .. } => match float {
                Some(bits) => Ok(FillValueS::Float(*bits)),
                None => Err(Refusal::Unreadable),
            },
            _ => Err(type_err(dtype, "a float or int", given)),
        },
        DType::String => match value {
            Scalar::Text(t) => Ok(FillValueS::String(t.clone())),
            _ => Err(type_err(dtype, "a str", given)),
        },
        DType::Binary => Err(not_supported("fill_value for binary arrays is not yet supported")),
        DType::List { .. } | DType::FixedSizeList { .. } => Err(
            not_supported("fill_value for list / fixed_size_list arrays is not supported"),
        ),
    }
}

/// An integer fill value that an array takes is the number that was given, and
/// lies in the range of the array's type.
pub proof fn law_integers_are_taken_unchanged(
    value: Scalar<Seq<char>>,
    dtype: DType,
    given: Seq<char>,
)
    ensures
        match filled(value, dtype, given) {
            Ok(FillModel::Int(n)) | Ok(FillModel::TimestampNs(n)) => value is Int
                && value->whole == Some(n as i128) && bounds(dtype).0 <= n <= bounds(dtype).1,
            Ok(FillModel::UInt(n)) => value is Int && value->whole == Some(n as i128) && bounds(
                dtype,
            ).0 <= n <= bounds(dtype).1,
            _ => true,
        },
{
}

/// A fill value that an array takes is the scalar that was given: the bits of a
/// `float`, the double of an `int` for a float array, the number itself for an
/// integer array, the `bool`, the text. Its form is that of the array's type.
pub proof fn law_fill_values_carry_the_given_scalar(
    value: Scalar<Seq<char>>,
    dtype: DType,
    given: Seq<char>,
)
    ensures
        filled(value, dtype, given) matches Ok(fill) ==> match value {
            Scalar::Bool(b) => fill == FillModel::Bool(b) && dtype is Bool,
            Scalar::Float(bits) => fill == FillModel::Float(bits) && (dtype is Float32
                || dtype is Float64),
            Scalar::Text(text) => fill == FillModel::String(text) && dtype is String,
            Scalar::Int { whole, float } => match fill {
                FillModel::Int(n) => whole == Some(n as i128) && (dtype is Int8 || dtype is Int16
                    || dtype is Int32 || dtype is Int64),
                FillModel::TimestampNs(n) => whole == Some(n as i128) && dtype is TimestampNs,
                FillModel::UInt(n) => whole == Some(n as i128) && (dtype is UInt8 || dtype is UInt16
                    || dtype is UInt32 || dtype is UInt64),
                FillModel::Float(bits) => float == Some(bits) && (dtype is Float32
                    || dtype is Float64),
                _ => false,
            },
            Scalar::Other => false,
        },
{
}

/// Every scalar that an array can hold is taken: a `bool` by a boolean array, a
/// text by a string array, a `float` by a float array, an `int` by an integer
/// array whose type holds the number, and by a float array where the number has
/// a double.
pub proof fn law_scalars_that_fit_are_taken(
    value: Scalar<Seq<char>>,
    dtype: DType,
    given: Seq<char>,
)
    ensures
        value is Bool && dtype is Bool ==> filled(value, dtype, given) is Ok,
        value is Text && dtype is String ==> filled(value, dtype, given) is Ok,
        value is Float && (dtype is Float32 || dtype is Float64) ==> filled(value, dtype, given)
            is Ok,
        value matches Scalar::Int { whole, float } ==> {
            &&& float is Some && (dtype is Float32 || dtype is Float64) ==> filled(
                value,
                dtype,
                given,
            ) is Ok
            &&& whole matches Some(n) ==> (numeric_of(dtype) matches Some(numeric) ==> (!(
            numeric is Float) ==> (filled(value, dtype, given) is Ok <==> least(numeric) <= n
                <= greatest(numeric))))
            &&& whole matches Some(n) ==> (dtype is TimestampNs ==> (filled(value, dtype, given)
                is Ok <==> i64::MIN <= n <= i64::MAX))
        },
{
}

/// Why a scalar is refused shows in the class of the exception: a scalar of
/// another kind is a `TypeError`, a number out of range an `OverflowError`, an
/// array without fill values a `NotImplementedError`.
pub proof fn law_refusals_name_their_reason(
    value: Scalar<Seq<char>>,
    dtype: DType,
    given: Seq<char>,
)
    ensures
        match filled(value, dtype, given) {
            Ok(_) => true,
            Err(Refusal::Unreadable) => value is Int,
            Err(Refusal::Raise(raised)) => match raised.class {
                ErrorClass::NotImplemented => dtype is Binary || dtype is List
                    || dtype is FixedSizeList,
                ErrorClass::Overflow => value is Int && value->whole is Some && (numeric_of(dtype)
                    matches Some(n) && !(n is Float) && !(least(n) <= value->whole.unwrap()
                    <= greatest(n))),
                ErrorClass::Type => match dtype {
                    DType::Bool => !(value is Bool),
                    DType::String => !(value is Text),
                    DType::Float32 | DType::Float64 => !(value is Float) && !(value is Int),
                    _ => !(value is Int),
                },
                _ => false,
            },
        },
{
}

} // verus!
