//! Which element type a transfer runs on, and what its input must be.

use super::fill::{filled, py_to_fill_value, Refusal, Scalar};
use super::raised::{outcome, raised_for, to_py_err, ErrorClass, Raised};
use crate::error::Error;
use crate::notation::dtype::{dtype_to_string, parse_dtype, parsed, printed, unknown_dtype};
use crate::notation::words::{quote, quoted, trimmed};
use crate::schema::array::{FillModel, FillValueS};
use crate::schema::dtype::{shown, DType};
use crate::schema::layout::fill_model;
use vstd::prelude::*;
use vstd::utf8::{decode_utf8, valid_utf8};

verus! {

/// The element type that a transfer of an array runs on.
#[derive(Debug, Clone, Copy, PartialEq, Eq, Structural)]
pub enum Element {
    /// Signed 8-bit integers.
    Int8,
    /// Signed 16-bit integers.
    Int16,
    /// Signed 32-bit integers.
    Int32,
    /// Signed 64-bit integers.
    Int64,
    /// Unsigned 8-bit integers.
    UInt8,
    /// Unsigned 16-bit integers.
    UInt16,
    /// Unsigned 32-bit integers.
    UInt32,
    /// Unsigned 64-bit integers.
    UInt64,
    /// 32-bit floats.
    Float32,
    /// 64-bit floats.
    Float64,
    /// Timestamps, carried as signed 64-bit integers.
    TimestampNs,
    /// Strings, carried as objects.
    String,
}

/// An exception of a class.
pub open spec fn raise(class: ErrorClass, message: Seq<char>) -> Raised<Seq<char>> {
    Raised { class, message }
}

fn raise_now(class: ErrorClass, message: &str) -> (raised: Raised)
    ensures
        raised@ == raise(class, message@),
{
    Raised { class, message: message.to_owned() }
}

/// The element type for an array of a type. No transfer takes boolean, binary
/// or list elements.
pub open spec fn element_of(dtype: DType) -> Result<Element, Raised<Seq<char>>> {
    match dtype {
        DType::Int8 => Ok(Element::Int8),
        DType::Int16 => Ok(Element::Int16),
        DType::Int32 => Ok(Element::Int32),
        DType::Int64 => Ok(Element::Int64),
        DType::UInt8 => Ok(Element::UInt8),
        DType::UInt16 => Ok(Element::UInt16),
        DType::UInt32 => Ok(Element::UInt32),
        DType::UInt64 => Ok(Element::UInt64),
        DType::Float32 => Ok(Element::Float32),
        DType::Float64 => Ok(Element::Float64),
        DType::TimestampNs => Ok(Element::TimestampNs),
        DType::String => Ok(Element::String),
        DType::Bool => Err(
            raise(
                ErrorClass::NotImplemented,
                "Bool arrays are not supported by the underlying array-format crate"@,
            ),
        ),
        DType::Binary => Err(
            raise(
                ErrorClass::NotImplemented,
                "Binary arrays are not yet exposed in the Python bindings"@,
            ),
        ),
        DType::List { .. } | DType::FixedSizeList { .. } => Err(
            raise(
                ErrorClass::NotImplemented,
                "List / FixedSizeList arrays are not yet exposed in the Python bindings"@,
            ),
        ),
    }
}

/// The element type for an array of a type.
pub fn element_for(dtype: &DType) -> (element: Result<Element, Raised>)
    ensures
        outcome(element) == element_of(*dtype),
        element matches Ok(e) ==> carried(e) == *dtype,
{
    match dtype {
        DType::Int8 => Ok(Element::Int8),
        DType::Int16 => Ok(Element::Int16),
        DType::Int32 => Ok(Element::Int32),
        DType::Int64 => Ok(Element::Int64),
        DType::UInt8 => Ok(Element::UInt8),
        DType::UInt16 => Ok(Element::UInt16),
        DType::UInt32 => Ok(Element::UInt32),
        DType::UInt64 => Ok(Element::UInt64),
        DType::Float32 => Ok(Element::Float32),
        DType::Float64 => Ok(Element::Float64),
        DType::TimestampNs => Ok(Element::TimestampNs),
        DType::String => Ok(Element::String),
        DType::Bool => Err(
            raise_now(
                ErrorClass::NotImplemented,
                "Bool arrays are not supported by the underlying array-format crate",
            ),
        ),
        DType::Binary => Err(
            raise_now(
                ErrorClass::NotImplemented,
                "Binary arrays are not yet exposed in the Python bindings",
            ),
        ),
        DType::List { .. } | DType::FixedSizeList { .. } => Err(
            raise_now(
                ErrorClass::NotImplemented,
                "List / FixedSizeList arrays are not yet exposed in the Python bindings",
            ),
        ),
    }
}

/// The refusal of a writer that has finished.
pub open spec fn closed_writer() -> Raised<Seq<char>> {
    raised_for(Error::WriterFinished)
}

/// Refuses to go on with a writer that has finished.
pub fn check_open(finished: bool) -> (open: Result<(), Raised>)
    ensures
        outcome(open) == (if finished {
            Err::<(), Raised<Seq<char>>>(closed_writer())
        } else {
            Ok::<(), Raised<Seq<char>>>(())
        }),
{
    if finished {
        Err(to_py_err(&Error::WriterFinished))
    } else {
        Ok(())
    }
}

/// How an array is to be defined.
#[derive(Debug)]
pub struct Definition {
    /// The element type.
    pub dtype: DType,
    /// The fill value.
    pub fill: Option<FillValueS>,
    /// The type the transfer runs on.
    pub element: Element,
}

/// What a definition says: the element type, the fill value, and the type the
/// transfer runs on.
pub open spec fn defined(
    dtype: Seq<char>,
    fill: Option<(Scalar<Seq<char>>, Seq<char>)>,
    finished: bool,
) -> Result<(DType, Option<FillModel>, Element), Refusal<Seq<char>>> {
    match parsed(trimmed(dtype)) {
        None => Err(Refusal::Raise(raise(ErrorClass::Value, unknown_dtype(dtype)))),
        Some(d) => {
            let value = match fill {
                None => Ok(None),
                Some((scalar, given)) => match filled(scalar, d, given) {
                    Ok(value) => Ok(Some(value)),
                    Err(refusal) => Err(refusal),
                },
            };
            match value {
                Err(refusal) => Err(refusal),
                Ok(value) => if finished {
                    Err(Refusal::Raise(closed_writer()))
                } else {
                    match element_of(d) {
                        Err(raised) => Err(Refusal::Raise(raised)),
                        Ok(element) => Ok((d, value, element)),
                    }
                },
            }
        },
    }
}

/// A fill value that a caller gave, with the name of its type.
pub open spec fn fill_given(fill: Option<(Scalar, String)>) -> Option<
    (Scalar<Seq<char>>, Seq<char>),
> {
    match fill {
        Some((scalar, given)) => Some((scalar@, given@)),
        None => None,
    }
}

/// Decides how an array is defined, from what a caller writes: the type, a fill
/// value with the name of its Python type, and whether the writer has finished.
/// The type is read first, then the fill value.
pub fn plan_define(dtype: &str, fill: &Option<(Scalar, String)>, finished: bool) -> (plan: Result<
    Definition,
    Refusal,
>)
    ensures
        match plan {
            Ok(d) => defined(dtype@, fill_given(*fill), finished) == Ok::<
                (DType, Option<FillModel>, Element),
                Refusal<Seq<char>>,
            >((d.dtype, fill_model(d.fill), d.element)),
            Err(refusal) => defined(dtype@, fill_given(*fill), finished) == Err::<
                (DType, Option<FillModel>, Element),
                Refusal<Seq<char>>,
            >(refusal@),
        },
        plan matches Ok(d) ==> carried(d.element) == d.dtype,
{
    let dtype: DType = match parse_dtype(dtype) {
        Ok(d) => d,
        Err(message) => {
            return Err(Refusal::Raise(Raised { class: ErrorClass::Value, message }));
        },
    };
    let fill: Option<FillValueS> = match fill {
        None => None,
        Some((scalar, given)) => match py_to_fill_value(scalar, &dtype, given.as_str()) {
            Ok(value) => Some(value),
            Err(refusal) => {
                return Err(refusal);
            },
        },
    };
    match check_open(finished) {
        Ok(()) => {},
        Err(raised) => {
            return Err(Refusal::Raise(raised));
        },
    }
    match element_for(&dtype) {
        Ok(element) => Ok(Definition { dtype, fill, element }),
        Err(raised) => Err(Refusal::Raise(raised)),
    }
}

/// Decides which element type a write runs on. `stored` is the declared type of
/// the array, where it is declared.
pub fn plan_write(stored: &Option<DType>, name: &str) -> (element: Result<Element, Raised>)
    ensures
        outcome(element) == match *stored {
            Some(dtype) => element_of(dtype),
            None => Err(raised_for(Error::ArrayNotFound(name@))),
        },
        element matches Ok(e) ==> *stored == Some(carried(e)),
{
    match stored {
        Some(dtype) => element_for(dtype),
        None => Err(to_py_err(&Error::ArrayNotFound(name.to_owned()))),
    }
}

/// What the input of a write must be.
pub open spec fn expected_input(element: Element, dtype: DType, name: Seq<char>) -> Seq<char> {
    match element {
        Element::String => {
            "expected numpy ndarray of object/bytes/unicode strings for array "@ + quoted(name)
        },
        Element::TimestampNs => {
            "expected numpy ndarray with dtype int64 (use arr.view(np.int64) for datetime64[ns]) for array "@
                + quoted(name)
        },
        _ => "expected numpy ndarray with dtype "@ + printed(dtype) + " for array "@ + quoted(name),
    }
}

/// Checks the input of a write: it is an array of the element type, and its
/// elements lie in row-major order without gaps.
pub fn check_input(
    element: Element,
    dtype: &DType,
    name: &str,
    is_array: bool,
    contiguous: bool,
) -> (fit: Result<(), Raised>)
    ensures
        outcome(fit) == (if !is_array {
            Err::<(), Raised<Seq<char>>>(
                raise(ErrorClass::Type, expected_input(element, *dtype, name@)),
            )
        } else if !contiguous {
            Err::<(), Raised<Seq<char>>>(
                raise(ErrorClass::Value, "input numpy array must be C-contiguous"@),
            )
        } else {
            Ok::<(), Raised<Seq<char>>>(())
        }),
{
    if !is_array {
        let mut message: String = match element {
            Element::String => {
                "expected numpy ndarray of object/bytes/unicode strings for array ".to_owned()
            },
            Element::TimestampNs => {
                "expected numpy ndarray with dtype int64 (use arr.view(np.int64) for datetime64[ns]) for array ".to_owned()
            },
            _ => {
                let mut text: String = "expected numpy ndarray with dtype ".to_owned();
                text.append(dtype_to_string(dtype).as_str());
                text.append(" for array ");
                text
            },
        };
        message.append(quote(name).as_str());
        return Err(Raised { class: ErrorClass::Type, message });
    }
    if !contiguous {
        return Err(raise_now(ErrorClass::Value, "input numpy array must be C-contiguous"));
    }
    Ok(())
}

/// One element of the input of a string array. `T` is the form of a text and
/// `B` that of raw bytes: `String` and `Vec<u8>` in a value, their characters
/// and bytes in a contract.
#[derive(Debug, Clone, PartialEq, Eq)]
pub enum TextInput<T = String, B = Vec<u8>> {
    /// A `str`.
    Text(T),
    /// A `bytes`.
    Bytes(B),
    /// Anything else, with the name of its type.
    Other(T),
}

impl View for TextInput<String, Vec<u8>> {
    type V = TextInput<Seq<char>, Seq<u8>>;

    open spec fn view(&self) -> TextInput<Seq<char>, Seq<u8>> {
        match *self {
            TextInput::Text(t) => TextInput::Text(t@),
            TextInput::Bytes(b) => TextInput::Bytes(b@),
            TextInput::Other(t) => TextInput::Other(t@),
        }
    }
}

/// What `String::from_utf8_lossy` reads from raw bytes.
pub uninterp spec fn lossy(bytes: Seq<u8>) -> Seq<char>;

/// Wraps `String::from_utf8_lossy`. Believed: the text is a function of the
/// bytes alone, and where the bytes are UTF-8 it is the text they encode. How
/// an invalid sequence is replaced is left open.
#[verifier::external_body]
fn from_utf8_lossy(bytes: &[u8]) -> (text: String)
    ensures
        text@ == lossy(bytes@),
        valid_utf8(bytes@) ==> text@ == decode_utf8(bytes@),
{
    String::from_utf8_lossy(bytes).into_owned()
}

/// The text an element gives a string array.
pub open spec fn element_text(input: TextInput<Seq<char>, Seq<u8>>) -> Result<
    Seq<char>,
    Raised<Seq<char>>,
> {
    match input {
        TextInput::Text(t) => Ok(t),
        TextInput::Bytes(b) => Ok(lossy(b)),
        TextInput::Other(given) => Err(
            raise(
                ErrorClass::Type,
                "string array element must be str or bytes, got "@ + quoted(given),
            ),
        ),
    }
}

/// Reads the elements of a string array. The first that is no text is
/// refused.
pub fn text_elements(inputs: &Vec<TextInput>) -> (list: Result<Vec<String>, Raised>)
    ensures
        match list {
            Ok(list) => {
                &&& list@.len() == inputs@.len()
                &&& forall|i: int|
                    0 <= i < list@.len() ==> element_text(#[trigger] inputs@[i]@) == Ok::<
                        Seq<char>,
                        Raised<Seq<char>>,
                    >(list@[i]@)
            },
            Err(raised) => exists|at: int|
                {
                    &&& 0 <= at < inputs@.len()
                    &&& element_text(#[trigger] inputs@[at]@) == Err::<
                        Seq<char>,
                        Raised<Seq<char>>,
                    >(raised@)
                    &&& forall|i: int|
                        0 <= i < at ==> element_text(#[trigger] inputs@[i]@) is Ok
                },
        },
{
    let mut list: Vec<String> = Vec::new();
    let mut i: usize = 0;
    while i < inputs.len()
        invariant
            i <= inputs@.len(),
            list@.len() == i,
            forall|j: int|
                0 <= j < i ==> element_text(#[trigger] inputs@[j]@) == Ok::<
                    Seq<char>,
                    Raised<Seq<char>>,
                >(list@[j]@),
        decreases inputs@.len() - i,
    {
        let text: String = match &inputs[i] {
            TextInput::Text(t) => t.clone(),
            TextInput::Bytes(b) => from_utf8_lossy(b.as_slice()),
            TextInput::Other(given) => {
                let mut message: String =
                    "string array element must be str or bytes, got ".to_owned();
                message.append(quote(given.as_str()).as_str());
                assert(element_text(inputs@[i as int]@) is Err);
                return Err(Raised { class: ErrorClass::Type, message });
            },
        };
        list.push(text);
        i += 1;
    }
    Ok(list)
}

/// What a read takes: an element type and a region. An omitted start or shape
/// is empty, which stands for the whole array.
#[derive(Debug)]
pub struct Reading {
    /// The type the transfer runs on.
    pub element: Element,
    /// The origin of the region.
    pub start: Vec<usize>,
    /// The extents of the region.
    pub shape: Vec<usize>,
}

/// A part of a region: what was given, or nothing.
pub open spec fn or_empty(part: Option<Vec<usize>>) -> Seq<usize> {
    match part {
        Some(list) => list@,
        None => Seq::empty(),
    }
}

fn or_default(part: Option<Vec<usize>>) -> (list: Vec<usize>)
    ensures
        list@ == or_empty(part),
{
    match part {
        Some(list) => list,
        None => Vec::new(),
    }
}

/// A reading of a region on an element type.
pub open spec fn is_reading(
    r: Reading,
    element: Element,
    start: Option<Vec<usize>>,
    shape: Option<Vec<usize>>,
) -> bool {
    r.element == element && r.start@ == or_empty(start) && r.shape@ == or_empty(shape)
}

/// Decides how one array is read. An array that the dataset does not declare
/// gives nothing.
pub fn plan_read(
    stored: &Option<DType>,
    start: Option<Vec<usize>>,
    shape: Option<Vec<usize>>,
) -> (plan: Result<Option<Reading>, Raised>)
    ensures
        match plan {
            Ok(Some(r)) => *stored is Some && element_of((*stored)->Some_0) is Ok && is_reading(
                r,
                element_of((*stored)->Some_0)->Ok_0,
                start,
                shape,
            ),
            Ok(None) => *stored is None,
            Err(raised) => *stored is Some && element_of((*stored)->Some_0) == Err::<
                Element,
                Raised<Seq<char>>,
            >(raised@),
        },
        plan matches Ok(Some(r)) ==> *stored == Some(carried(r.element)),
{
    match stored {
        None => Ok(None),
        Some(dtype) => match element_for(dtype) {
            Ok(element) => Ok(
                Some(Reading { element, start: or_default(start), shape: or_default(shape) }),
            ),
            Err(raised) => Err(raised),
        },
    }
}

/// The name of a read over several datasets, as a report gives it.
pub open spec fn across_name(stacked: bool) -> Seq<char> {
    if stacked {
        "read_array_across_stacked"@
    } else {
        "read_array_across"@
    }
}

/// The element type on which an array is read over several datasets. There
/// must be a dataset to read, and some dataset must declare the array.
pub open spec fn across(
    stacked: bool,
    array: Seq<char>,
    datasets: nat,
    stored: Option<DType>,
) -> Result<Element, Raised<Seq<char>>> {
    if datasets == 0 {
        Err(raise(ErrorClass::Value, "dataset_names is empty"@))
    } else {
        match stored {
            None => Err(raise(ErrorClass::Key, "array not found: "@ + array)),
            Some(dtype) => if dtype is String || dtype is Bool || dtype is Binary {
                Err(
                    raise(
                        ErrorClass::NotImplemented,
                        across_name(stacked) + " does not support dtype "@ + shown(dtype),
                    ),
                )
            } else {
                element_of(dtype)
            },
        }
    }
}

/// Decides how one array is read over several datasets, as a list or stacked
/// into one array. No dataset declares an array of lists.
pub fn plan_read_across(
    stacked: bool,
    array: &str,
    dataset_names: &Vec<String>,
    stored: &Option<DType>,
    start: Option<Vec<usize>>,
    shape: Option<Vec<usize>>,
) -> (plan: Result<Reading, Raised>)
    requires
        *stored is Some ==> !((*stored)->Some_0 is List) && !((*stored)->Some_0 is FixedSizeList),
    ensures
        match plan {
            Ok(r) => across(stacked, array@, dataset_names@.len(), *stored) is Ok && is_reading(
                r,
                across(stacked, array@, dataset_names@.len(), *stored)->Ok_0,
                start,
                shape,
            ),
            Err(raised) => across(stacked, array@, dataset_names@.len(), *stored) == Err::<
                Element,
                Raised<Seq<char>>,
            >(raised@),
        },
        plan matches Ok(r) ==> *stored == Some(carried(r.element)),
{
    if dataset_names.len() == 0 {
        return Err(raise_now(ErrorClass::Value, "dataset_names is empty"));
    }
    let dtype: &DType = match stored {
        Some(dtype) => dtype,
        None => {
            return Err(to_py_err(&Error::ArrayNotFound(array.to_owned())));
        },
    };
    let refused: bool = match dtype {
        DType::String | DType::Bool | DType::Binary => true,
        _ => false,
    };
    if refused {
        let mut message: String = if stacked {
            "read_array_across_stacked".to_owned()
        } else {
            "read_array_across".to_owned()
        };
        message.append(" does not support dtype ");
        message.append(dtype.show().as_str());
        return Err(Raised { class: ErrorClass::NotImplemented, message });
    }
    match element_for(dtype) {
        Ok(element) => Ok(
            Reading { element, start: or_default(start), shape: or_default(shape) },
        ),
        Err(raised) => Err(raised),
    }
}

/// The type of the elements that a transfer carries.
pub open spec fn carried(element: Element) -> DType {
    match element {
        Element::Int8 => DType::Int8,
        Element::Int16 => DType::Int16,
        Element::Int32 => DType::Int32,
        Element::Int64 => DType::Int64,
        Element::UInt8 => DType::UInt8,
        Element::UInt16 => DType::UInt16,
        Element::UInt32 => DType::UInt32,
        Element::UInt64 => DType::UInt64,
        Element::Float32 => DType::Float32,
        Element::Float64 => DType::Float64,
        Element::TimestampNs => DType::TimestampNs,
        Element::String => DType::String,
    }
}

/// A transfer runs on the type that the array is stored with, so two types
/// never share one. Only boolean, binary and list arrays have none.
pub proof fn law_transfers_run_on_the_stored_type(dtype: DType, other: DType)
    ensures
        element_of(dtype) matches Ok(element) ==> carried(element) == dtype,
        element_of(dtype) is Ok <==> !(dtype is Bool) && !(dtype is Binary) && !(dtype is List) && !(
        dtype is FixedSizeList),
        element_of(dtype) is Ok && element_of(dtype) == element_of(other) ==> dtype == other,
        element_of(dtype) matches Err(raised) ==> raised.class == ErrorClass::NotImplemented,
{
}

/// An array is defined with the type that its text names, a transfer of that
/// type, and the fill value that was given, if one was. A writer that has
/// finished defines nothing.
pub proof fn law_definitions_follow_the_request(
    dtype: Seq<char>,
    fill: Option<(Scalar<Seq<char>>, Seq<char>)>,
    finished: bool,
)
    ensures
        match defined(dtype, fill, finished) {
            Ok((d, value, element)) => {
                &&& !finished
                &&& parsed(trimmed(dtype)) == Some(d)
                &&& carried(element) == d
                &&& value is Some <==> fill is Some
                &&& fill matches Some((scalar, given)) ==> filled(scalar, d, given) == Ok::<
                    FillModel,
                    Refusal<Seq<char>>,
                >(value.unwrap())
            },
            Err(_) => {
                ||| finished
                ||| parsed(trimmed(dtype)) is None
                ||| element_of(parsed(trimmed(dtype)).unwrap()) is Err
                ||| fill matches Some((scalar, given)) && filled(
                    scalar,
                    parsed(trimmed(dtype)).unwrap(),
                    given,
                ) is Err
            },
        },
{
}

/// A read over several datasets runs on the stored type too. It is refused
/// without a dataset, without an array, and for strings, booleans and bytes.
pub proof fn law_reads_across_run_on_the_stored_type(
    stacked: bool,
    array: Seq<char>,
    datasets: nat,
    stored: Option<DType>,
)
    ensures
        match across(stacked, array, datasets, stored) {
            Ok(element) => datasets > 0 && stored == Some(carried(element)) && element
                != Element::String,
            Err(raised) => {
                &&& datasets == 0 || stored is None || carried_by_none(stored.unwrap())
                &&& datasets == 0 ==> raised.class == ErrorClass::Value
                &&& datasets > 0 && stored is None ==> raised.class == ErrorClass::Key
                &&& datasets > 0 && stored is Some ==> raised.class == ErrorClass::NotImplemented
            },
        },
{
}

/// A type that no read over several datasets carries.
pub open spec fn carried_by_none(dtype: DType) -> bool {
    dtype is String || dtype is Bool || dtype is Binary || dtype is List || dtype is FixedSizeList
}

/// Every element of a string array is taken as the text that was given, and
/// valid bytes as the text they encode.
pub proof fn law_texts_are_taken_unchanged(input: TextInput<Seq<char>, Seq<u8>>)
    ensures
        match input {
            TextInput::Text(t) => element_text(input) == Ok::<Seq<char>, Raised<Seq<char>>>(t),
            TextInput::Bytes(b) => element_text(input) == Ok::<Seq<char>, Raised<Seq<char>>>(
                lossy(b),
            ),
            TextInput::Other(_) => element_text(input) matches Err(raised) && raised.class
                == ErrorClass::Type,
        },
{
}

/// A reading runs on the element type it was planned with and covers the region
/// that was asked for. What was not asked for is left to the whole array.
pub proof fn law_a_reading_covers_what_was_asked_for(
    r: Reading,
    element: Element,
    start: Vec<usize>,
    shape: Vec<usize>,
)
    ensures
        is_reading(r, element, Some(start), Some(shape)) <==> r.element == element && r.start@
            == start@ && r.shape@ == shape@,
        is_reading(r, element, None, None) <==> r.element == element && r.start@.len() == 0
            && r.shape@.len() == 0,
{
    assert(or_empty(None) =~= Seq::<usize>::empty());
    if r.start@.len() == 0 && r.shape@.len() == 0 {
        assert(r.start@ =~= Seq::<usize>::empty());
        assert(r.shape@ =~= Seq::<usize>::empty());
    }
}

} // verus!
