//! [`Attr`], the attribute value.

use crate::schema::dtype::DType;
use crate::text::{same_text, texts};
use vstd::prelude::*;
use vstd::std_specs::cmp::PartialEqSpec;

verus! {

/// A typed attribute value.
///
/// An attribute annotates a dataset or one of its arrays. Every variant
/// carries its own tag to disk and back, so a value says what it is and the
/// schema settles nothing. A write and a read give the same variant.
///
/// There is no timestamp variant. Store the number as [`Int64`](Self::Int64)
/// and name the unit in a second attribute. A string that looks like a date
/// stays a string. Floats are held by their bit patterns.
#[derive(Debug, PartialEq, Eq)]
pub enum Attr {
    /// Boolean.
    Bool(bool),
    /// Signed 8-bit integer.
    Int8(i8),
    /// Signed 16-bit integer.
    Int16(i16),
    /// Signed 32-bit integer.
    Int32(i32),
    /// Signed 64-bit integer.
    Int64(i64),
    /// Unsigned 8-bit integer.
    UInt8(u8),
    /// Unsigned 16-bit integer.
    UInt16(u16),
    /// Unsigned 32-bit integer.
    UInt32(u32),
    /// Unsigned 64-bit integer.
    UInt64(u64),
    /// 32-bit float, as its bits.
    Float32(u32),
    /// 64-bit float, as its bits.
    Float64(u64),
    /// UTF-8 string.
    String(String),
    /// Variable-length binary.
    Binary(Vec<u8>),
    /// List: boolean.
    BoolList(Vec<bool>),
    /// List: signed 8-bit integer.
    Int8List(Vec<i8>),
    /// List: signed 16-bit integer.
    Int16List(Vec<i16>),
    /// List: signed 32-bit integer.
    Int32List(Vec<i32>),
    /// List: signed 64-bit integer.
    Int64List(Vec<i64>),
    /// List: unsigned 8-bit integer.
    UInt8List(Vec<u8>),
    /// List: unsigned 16-bit integer.
    UInt16List(Vec<u16>),
    /// List: unsigned 32-bit integer.
    UInt32List(Vec<u32>),
    /// List: unsigned 64-bit integer.
    UInt64List(Vec<u64>),
    /// List: 32-bit float, as its bits.
    Float32List(Vec<u32>),
    /// List: 64-bit float, as its bits.
    Float64List(Vec<u64>),
    /// List of UTF-8 strings.
    StringList(Vec<String>),
    /// List of variable-length binary values.
    BinaryList(Vec<Vec<u8>>),
}

/// What an attribute holds.
pub enum AttrModel {
    /// Boolean.
    Bool(bool),
    /// Signed 8-bit integer.
    Int8(i8),
    /// Signed 16-bit integer.
    Int16(i16),
    /// Signed 32-bit integer.
    Int32(i32),
    /// Signed 64-bit integer.
    Int64(i64),
    /// Unsigned 8-bit integer.
    UInt8(u8),
    /// Unsigned 16-bit integer.
    UInt16(u16),
    /// Unsigned 32-bit integer.
    UInt32(u32),
    /// Unsigned 64-bit integer.
    UInt64(u64),
    /// 32-bit float, as its bits.
    Float32(u32),
    /// 64-bit float, as its bits.
    Float64(u64),
    /// The characters of a string.
    String(Seq<char>),
    /// The bytes of a binary value.
    Binary(Seq<u8>),
    /// List: boolean.
    BoolList(Seq<bool>),
    /// List: signed 8-bit integer.
    Int8List(Seq<i8>),
    /// List: signed 16-bit integer.
    Int16List(Seq<i16>),
    /// List: signed 32-bit integer.
    Int32List(Seq<i32>),
    /// List: signed 64-bit integer.
    Int64List(Seq<i64>),
    /// List: unsigned 8-bit integer.
    UInt8List(Seq<u8>),
    /// List: unsigned 16-bit integer.
    UInt16List(Seq<u16>),
    /// List: unsigned 32-bit integer.
    UInt32List(Seq<u32>),
    /// List: unsigned 64-bit integer.
    UInt64List(Seq<u64>),
    /// List: 32-bit float, as its bits.
    Float32List(Seq<u32>),
    /// List: 64-bit float, as its bits.
    Float64List(Seq<u64>),
    /// The characters of each string.
    StringList(Seq<Seq<char>>),
    /// The bytes of each binary value.
    BinaryList(Seq<Seq<u8>>),
}

/// The bytes of each binary value of a list.
pub open spec fn blobs(list: Seq<Vec<u8>>) -> Seq<Seq<u8>> {
    Seq::new(list.len(), |i: int| list[i]@)
}

impl View for Attr {
    type V = AttrModel;

    open spec fn view(&self) -> AttrModel {
        match *self {
            Attr::Bool(v) => AttrModel::Bool(v),
            Attr::Int8(v) => AttrModel::Int8(v),
            Attr::Int16(v) => AttrModel::Int16(v),
            Attr::Int32(v) => AttrModel::Int32(v),
            Attr::Int64(v) => AttrModel::Int64(v),
            Attr::UInt8(v) => AttrModel::UInt8(v),
            Attr::UInt16(v) => AttrModel::UInt16(v),
            Attr::UInt32(v) => AttrModel::UInt32(v),
            Attr::UInt64(v) => AttrModel::UInt64(v),
            Attr::Float32(v) => AttrModel::Float32(v),
            Attr::Float64(v) => AttrModel::Float64(v),
            Attr::String(v) => AttrModel::String(v@),
            Attr::Binary(v) => AttrModel::Binary(v@),
            Attr::BoolList(v) => AttrModel::BoolList(v@),
            Attr::Int8List(v) => AttrModel::Int8List(v@),
            Attr::Int16List(v) => AttrModel::Int16List(v@),
            Attr::Int32List(v) => AttrModel::Int32List(v@),
            Attr::Int64List(v) => AttrModel::Int64List(v@),
            Attr::UInt8List(v) => AttrModel::UInt8List(v@),
            Attr::UInt16List(v) => AttrModel::UInt16List(v@),
            Attr::UInt32List(v) => AttrModel::UInt32List(v@),
            Attr::UInt64List(v) => AttrModel::UInt64List(v@),
            Attr::Float32List(v) => AttrModel::Float32List(v@),
            Attr::Float64List(v) => AttrModel::Float64List(v@),
            Attr::StringList(v) => AttrModel::StringList(texts(v@)),
            Attr::BinaryList(v) => AttrModel::BinaryList(blobs(v@)),
        }
    }
}

/// A list type.
pub open spec fn list_of(child: DType) -> DType {
    DType::List { child: Box::new(child) }
}

/// The type an attribute value occupies. A scalar has the matching scalar
/// type, and a list has a list type over the element type.
pub open spec fn attr_dtype(value: AttrModel) -> DType {
    match value {
        AttrModel::Bool(_) => DType::Bool,
        AttrModel::Int8(_) => DType::Int8,
        AttrModel::Int16(_) => DType::Int16,
        AttrModel::Int32(_) => DType::Int32,
        AttrModel::Int64(_) => DType::Int64,
        AttrModel::UInt8(_) => DType::UInt8,
        AttrModel::UInt16(_) => DType::UInt16,
        AttrModel::UInt32(_) => DType::UInt32,
        AttrModel::UInt64(_) => DType::UInt64,
        AttrModel::Float32(_) => DType::Float32,
        AttrModel::Float64(_) => DType::Float64,
        AttrModel::String(_) => DType::String,
        AttrModel::Binary(_) => DType::Binary,
        AttrModel::BoolList(_) => list_of(DType::Bool),
        AttrModel::Int8List(_) => list_of(DType::Int8),
        AttrModel::Int16List(_) => list_of(DType::Int16),
        AttrModel::Int32List(_) => list_of(DType::Int32),
        AttrModel::Int64List(_) => list_of(DType::Int64),
        AttrModel::UInt8List(_) => list_of(DType::UInt8),
        AttrModel::UInt16List(_) => list_of(DType::UInt16),
        AttrModel::UInt32List(_) => list_of(DType::UInt32),
        AttrModel::UInt64List(_) => list_of(DType::UInt64),
        AttrModel::Float32List(_) => list_of(DType::Float32),
        AttrModel::Float64List(_) => list_of(DType::Float64),
        AttrModel::StringList(_) => list_of(DType::String),
        AttrModel::BinaryList(_) => list_of(DType::Binary),
    }
}

fn list(child: DType) -> (d: DType)
    ensures
        d == list_of(child),
{
    DType::List { child: Box::new(child) }
}

/// Whether two lists of plain values hold the same.
pub fn same_list<T: PartialEq + PartialEqSpec>(a: &Vec<T>, b: &Vec<T>) -> (same: bool)
    requires
        T::obeys_eq_spec(),
        forall|x: T, y: T| #[trigger] x.eq_spec(&y) <==> x == y,
    ensures
        same == (a@ == b@),
{
    if a.len() != b.len() {
        return false;
    }
    let mut i: usize = 0;
    while i < a.len()
        invariant
            T::obeys_eq_spec(),
            forall|x: T, y: T| #[trigger] x.eq_spec(&y) <==> x == y,
            i <= a@.len(),
            a@.len() == b@.len(),
            forall|j: int| 0 <= j < i ==> a@[j] == b@[j],
        decreases a@.len() - i,
    {
        if !(a[i] == b[i]) {
            return false;
        }
        i += 1;
    }
    assert(a@ =~= b@);
    true
}

/// Whether two lists of strings hold the same.
pub fn same_texts(a: &Vec<String>, b: &Vec<String>) -> (same: bool)
    ensures
        same == (texts(a@) == texts(b@)),
{
    if a.len() != b.len() {
        assert(texts(a@).len() != texts(b@).len());
        return false;
    }
    let mut i: usize = 0;
    while i < a.len()
        invariant
            i <= a@.len(),
            a@.len() == b@.len(),
            forall|j: int| 0 <= j < i ==> a@[j]@ == b@[j]@,
        decreases a@.len() - i,
    {
        if !same_text(a[i].as_str(), b[i].as_str()) {
            assert(texts(a@)[i as int] != texts(b@)[i as int]);
            return false;
        }
        i += 1;
    }
    assert(texts(a@) =~= texts(b@));
    true
}

fn same_blobs(a: &Vec<Vec<u8>>, b: &Vec<Vec<u8>>) -> (same: bool)
    ensures
        same == (blobs(a@) == blobs(b@)),
{
    if a.len() != b.len() {
        assert(blobs(a@).len() != blobs(b@).len());
        return false;
    }
    let mut i: usize = 0;
    while i < a.len()
        invariant
            i <= a@.len(),
            a@.len() == b@.len(),
            forall|j: int| 0 <= j < i ==> a@[j]@ == b@[j]@,
        decreases a@.len() - i,
    {
        if !same_list(&a[i], &b[i]) {
            assert(blobs(a@)[i as int] != blobs(b@)[i as int]);
            return false;
        }
        i += 1;
    }
    assert(blobs(a@) =~= blobs(b@));
    true
}

/// A copy of a list of plain values.
pub fn copy_list<T: Copy>(a: &Vec<T>) -> (b: Vec<T>)
    ensures
        b@ == a@,
{
    let mut b: Vec<T> = Vec::new();
    let mut i: usize = 0;
    while i < a.len()
        invariant
            i <= a@.len(),
            b@ == a@.take(i as int),
        decreases a@.len() - i,
    {
        b.push(a[i]);
        i += 1;
        assert(b@ =~= a@.take(i as int));
    }
    assert(a@.take(i as int) =~= a@);
    b
}

/// A copy of a list of strings.
pub fn copy_texts(a: &Vec<String>) -> (b: Vec<String>)
    ensures
        texts(b@) == texts(a@),
        b@.len() == a@.len(),
{
    let mut b: Vec<String> = Vec::new();
    let mut i: usize = 0;
    while i < a.len()
        invariant
            i <= a@.len(),
            b@.len() == i,
            forall|j: int| 0 <= j < i ==> b@[j]@ == a@[j]@,
        decreases a@.len() - i,
    {
        b.push(a[i].clone());
        i += 1;
    }
    assert(texts(b@) =~= texts(a@));
    b
}

fn copy_blobs(a: &Vec<Vec<u8>>) -> (b: Vec<Vec<u8>>)
    ensures
        blobs(b@) == blobs(a@),
{
    let mut b: Vec<Vec<u8>> = Vec::new();
    let mut i: usize = 0;
    while i < a.len()
        invariant
            i <= a@.len(),
            b@.len() == i,
            forall|j: int| 0 <= j < i ==> b@[j]@ == a@[j]@,
        decreases a@.len() - i,
    {
        b.push(copy_list(&a[i]));
        i += 1;
    }
    assert(blobs(b@) =~= blobs(a@));
    b
}

impl Clone for Attr {
    fn clone(&self) -> (copy: Self)
        ensures
            copy@ == self@,
    {
        match self {
            Attr::Bool(v) => Attr::Bool(*v),
            Attr::Int8(v) => Attr::Int8(*v),
            Attr::Int16(v) => Attr::Int16(*v),
            Attr::Int32(v) => Attr::Int32(*v),
            Attr::Int64(v) => Attr::Int64(*v),
            Attr::UInt8(v) => Attr::UInt8(*v),
            Attr::UInt16(v) => Attr::UInt16(*v),
            Attr::UInt32(v) => Attr::UInt32(*v),
            Attr::UInt64(v) => Attr::UInt64(*v),
            Attr::Float32(v) => Attr::Float32(*v),
            Attr::Float64(v) => Attr::Float64(*v),
            Attr::String(v) => Attr::String(v.clone()),
            Attr::Binary(v) => Attr::Binary(copy_list(v)),
            Attr::BoolList(v) => Attr::BoolList(copy_list(v)),
            Attr::Int8List(v) => Attr::Int8List(copy_list(v)),
            Attr::Int16List(v) => Attr::Int16List(copy_list(v)),
            Attr::Int32List(v) => Attr::Int32List(copy_list(v)),
            Attr::Int64List(v) => Attr::Int64List(copy_list(v)),
            Attr::UInt8List(v) => Attr::UInt8List(copy_list(v)),
            Attr::UInt16List(v) => Attr::UInt16List(copy_list(v)),
            Attr::UInt32List(v) => Attr::UInt32List(copy_list(v)),
            Attr::UInt64List(v) => Attr::UInt64List(copy_list(v)),
            Attr::Float32List(v) => Attr::Float32List(copy_list(v)),
            Attr::Float64List(v) => Attr::Float64List(copy_list(v)),
            Attr::StringList(v) => Attr::StringList(copy_texts(v)),
            Attr::BinaryList(v) => Attr::BinaryList(copy_blobs(v)),
        }
    }
}

impl Attr {
    /// The [`DType`] this value occupies. A scalar maps to the matching scalar
    /// type. A list maps to a [`DType::List`] over the element type.
    pub fn dtype(&self) -> (d: DType)
        ensures
            d == attr_dtype(self@),
    {
        match self {
            Attr::Bool(_) => DType::Bool,
            Attr::Int8(_) => DType::Int8,
            Attr::Int16(_) => DType::Int16,
            Attr::Int32(_) => DType::Int32,
            Attr::Int64(_) => DType::Int64,
            Attr::UInt8(_) => DType::UInt8,
            Attr::UInt16(_) => DType::UInt16,
            Attr::UInt32(_) => DType::UInt32,
            Attr::UInt64(_) => DType::UInt64,
            Attr::Float32(_) => DType::Float32,
            Attr::Float64(_) => DType::Float64,
            Attr::String(_) => DType::String,
            Attr::Binary(_) => DType::Binary,
            Attr::BoolList(_) => list(DType::Bool),
            Attr::Int8List(_) => list(DType::Int8),
            Attr::Int16List(_) => list(DType::Int16),
            Attr::Int32List(_) => list(DType::Int32),
            Attr::Int64List(_) => list(DType::Int64),
            Attr::UInt8List(_) => list(DType::UInt8),
            Attr::UInt16List(_) => list(DType::UInt16),
            Attr::UInt32List(_) => list(DType::UInt32),
            Attr::UInt64List(_) => list(DType::UInt64),
            Attr::Float32List(_) => list(DType::Float32),
            Attr::Float64List(_) => list(DType::Float64),
            Attr::StringList(_) => list(DType::String),
            Attr::BinaryList(_) => list(DType::Binary),
        }
    }

    /// Whether two values are of one variant and hold the same. Floats compare
    /// by their bits, so one NaN equals another of the same bits.
    pub fn same(&self, other: &Attr) -> (same: bool)
        ensures
            same == (self@ == other@),
    {
        match (self, other) {
            (Attr::Bool(a), Attr::Bool(b)) => *a == *b,
            (Attr::Int8(a), Attr::Int8(b)) => *a == *b,
            (Attr::Int16(a), Attr::Int16(b)) => *a == *b,
            (Attr::Int32(a), Attr::Int32(b)) => *a == *b,
            (Attr::Int64(a), Attr::Int64(b)) => *a == *b,
            (Attr::UInt8(a), Attr::UInt8(b)) => *a == *b,
            (Attr::UInt16(a), Attr::UInt16(b)) => *a == *b,
            (Attr::UInt32(a), Attr::UInt32(b)) => *a == *b,
            (Attr::UInt64(a), Attr::UInt64(b)) => *a == *b,
            (Attr::Float32(a), Attr::Float32(b)) => *a == *b,
            (Attr::Float64(a), Attr::Float64(b)) => *a == *b,
            (Attr::String(a), Attr::String(b)) => same_text(a.as_str(), b.as_str()),
            (Attr::Binary(a), Attr::Binary(b)) => same_list(a, b),
            (Attr::BoolList(a), Attr::BoolList(b)) => same_list(a, b),
            (Attr::Int8List(a), Attr::Int8List(b)) => same_list(a, b),
            (Attr::Int16List(a), Attr::Int16List(b)) => same_list(a, b),
            (Attr::Int32List(a), Attr::Int32List(b)) => same_list(a, b),
            (Attr::Int64List(a), Attr::Int64List(b)) => same_list(a, b),
            (Attr::UInt8List(a), Attr::UInt8List(b)) => same_list(a, b),
            (Attr::UInt16List(a), Attr::UInt16List(b)) => same_list(a, b),
            (Attr::UInt32List(a), Attr::UInt32List(b)) => same_list(a, b),
            (Attr::UInt64List(a), Attr::UInt64List(b)) => same_list(a, b),
            (Attr::Float32List(a), Attr::Float32List(b)) => same_list(a, b),
            (Attr::Float64List(a), Attr::Float64List(b)) => same_list(a, b),
            (Attr::StringList(a), Attr::StringList(b)) => same_texts(a, b),
            (Attr::BinaryList(a), Attr::BinaryList(b)) => same_blobs(a, b),
            _ => false,
        }
    }
}

/// A value is a single value of a type. No attribute is a single timestamp or
/// a single list.
pub open spec fn is_scalar_of(value: AttrModel, dtype: DType) -> bool {
    match dtype {
        DType::Bool => value is Bool,
        DType::Int8 => value is Int8,
        DType::Int16 => value is Int16,
        DType::Int32 => value is Int32,
        DType::Int64 => value is Int64,
        DType::UInt8 => value is UInt8,
        DType::UInt16 => value is UInt16,
        DType::UInt32 => value is UInt32,
        DType::UInt64 => value is UInt64,
        DType::Float32 => value is Float32,
        DType::Float64 => value is Float64,
        DType::String => value is String,
        DType::Binary => value is Binary,
        _ => false,
    }
}

/// A value is a list of values of a type. No list holds timestamps or lists.
pub open spec fn is_list_of(value: AttrModel, child: DType) -> bool {
    match child {
        DType::Bool => value is BoolList,
        DType::Int8 => value is Int8List,
        DType::Int16 => value is Int16List,
        DType::Int32 => value is Int32List,
        DType::Int64 => value is Int64List,
        DType::UInt8 => value is UInt8List,
        DType::UInt16 => value is UInt16List,
        DType::UInt32 => value is UInt32List,
        DType::UInt64 => value is UInt64List,
        DType::Float32 => value is Float32List,
        DType::Float64 => value is Float64List,
        DType::String => value is StringList,
        DType::Binary => value is BinaryList,
        _ => false,
    }
}

/// The type of an attribute is the one its value is of: a scalar type for a
/// single value of it, a list type for a list of values of the element type,
/// and no other.
pub proof fn law_an_attribute_has_the_type_of_its_value(value: AttrModel, dtype: DType)
    ensures
        attr_dtype(value) == dtype <==> (is_scalar_of(value, dtype) || (dtype matches DType::List {
            child,
        } && is_list_of(value, *child))),
{
}

} // verus!
