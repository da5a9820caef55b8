//! Options, attributes and context managers.

use super::raised::{outcome, ErrorClass, Raised};
use super::transfer::raise;
use crate::config::{
    Codec, MetaFormat, TypeMismatchPolicy, WriterConfig, DEFAULT_BLOCK_TARGET_SIZE,
};
use crate::notation::dtype::named;
use crate::notation::options::{
    codec_named, meta_format_named, parse_attribute_dtype, parse_codec, parse_meta_format,
    parse_type_mismatch_policy, policy_named, refusal,
};
use crate::notation::words::{lowered, quote, quoted};
use crate::schema::dtype::DType;
use crate::text::{decimal, decimal_text};
use vstd::prelude::*;

verus! {

/// What a word names, or the exception that refuses it.
pub open spec fn or_refuse<T>(
    found: Option<T>,
    what: Seq<char>,
    word: Seq<char>,
    expected: Seq<char>,
) -> Result<T, Raised<Seq<char>>> {
    match found {
        Some(value) => Ok(value),
        None => Err(raise(ErrorClass::Value, refusal(what, word, expected))),
    }
}

/// The codec that an option names.
pub open spec fn codec_option(word: Seq<char>) -> Result<Codec, Raised<Seq<char>>> {
    or_refuse(
        codec_named(lowered(word)),
        "unknown codec: "@,
        word,
        " (expected 'zstd', 'lz4', or 'none')"@,
    )
}

/// The metadata encoding that an option names.
pub open spec fn meta_format_option(word: Seq<char>) -> Result<MetaFormat, Raised<Seq<char>>> {
    or_refuse(
        meta_format_named(lowered(word)),
        "unknown meta_format: "@,
        word,
        " (expected 'json' or 'msgpack')"@,
    )
}

/// The policy that an option names.
pub open spec fn policy_option(word: Seq<char>) -> Result<TypeMismatchPolicy, Raised<Seq<char>>> {
    or_refuse(
        policy_named(lowered(word)),
        "unknown on_type_mismatch: "@,
        word,
        " (expected 'warn' or 'error')"@,
    )
}

/// The settings of a writer: its codec and its block size.
pub open spec fn writer_settings(codec: Seq<char>, block_target_size: Option<usize>) -> Result<
    (Codec, usize),
    Raised<Seq<char>>,
> {
    match codec_option(codec) {
        Err(raised) => Err(raised),
        Ok(codec) => match block_target_size {
            None => Ok((codec, DEFAULT_BLOCK_TARGET_SIZE)),
            Some(size) => if size == 0 {
                Err(raise(ErrorClass::Value, "block_target_size must be positive"@))
            } else {
                Ok((codec, size))
            },
        },
    }
}

/// The settings for a new collection. The block size must be positive.
pub fn writer_config(codec: &str, block_target_size: Option<usize>) -> (config: Result<
    WriterConfig,
    Raised,
>)
    ensures
        match config {
            Ok(c) => writer_settings(codec@, block_target_size) == Ok::<
                (Codec, usize),
                Raised<Seq<char>>,
            >((c.codec, c.block_target_size)),
            Err(raised) => writer_settings(codec@, block_target_size) == Err::<
                (Codec, usize),
                Raised<Seq<char>>,
            >(raised@),
        },
{
    let mut config: WriterConfig = WriterConfig::default();
    match parse_codec(codec) {
        Ok(codec) => {
            config.codec = codec;
        },
        Err(message) => {
            return Err(Raised { class: ErrorClass::Value, message });
        },
    }
    match block_target_size {
        None => {},
        Some(size) => {
            if size == 0 {
                return Err(
                    Raised {
                        class: ErrorClass::Value,
                        message: "block_target_size must be positive".to_owned(),
                    },
                );
            }
            config.block_target_size = size;
        },
    }
    Ok(config)
}

/// The settings of a store.
#[derive(Debug, Clone, Copy, PartialEq, Eq, Structural)]
pub struct StoreConfig {
    /// Codec for array blocks.
    pub codec: Codec,
    /// What happens on a type that does not merge.
    pub on_type_mismatch: TypeMismatchPolicy,
    /// The encoding of the metadata file.
    pub meta_format: MetaFormat,
    /// The compression of the metadata file.
    pub meta_compression: Codec,
}

/// The settings that four options name. The first that names nothing is
/// refused.
pub open spec fn store_settings(
    codec: Seq<char>,
    meta_format: Seq<char>,
    meta_compression: Seq<char>,
    on_type_mismatch: Seq<char>,
) -> Result<StoreConfig, Raised<Seq<char>>> {
    match codec_option(codec) {
        Err(raised) => Err(raised),
        Ok(codec) => match meta_format_option(meta_format) {
            Err(raised) => Err(raised),
            Ok(meta_format) => match codec_option(meta_compression) {
                Err(raised) => Err(raised),
                Ok(meta_compression) => match policy_option(on_type_mismatch) {
                    Err(raised) => Err(raised),
                    Ok(on_type_mismatch) => Ok(
                        StoreConfig { codec, on_type_mismatch, meta_format, meta_compression },
                    ),
                },
            },
        },
    }
}

fn value_error(message: String) -> (raised: Raised)
    ensures
        raised@ == raise(ErrorClass::Value, message@),
{
    Raised { class: ErrorClass::Value, message }
}

/// The settings for a new store.
pub fn store_config(
    codec: &str,
    meta_format: &str,
    meta_compression: &str,
    on_type_mismatch: &str,
) -> (config: Result<StoreConfig, Raised>)
    ensures
        outcome(config) == store_settings(
            codec@,
            meta_format@,
            meta_compression@,
            on_type_mismatch@,
        ),
{
    let codec: Codec = match parse_codec(codec) {
        Ok(codec) => codec,
        Err(message) => {
            return Err(value_error(message));
        },
    };
    let meta_format: MetaFormat = match parse_meta_format(meta_format) {
        Ok(format) => format,
        Err(message) => {
            return Err(value_error(message));
        },
    };
    let meta_compression: Codec = match parse_codec(meta_compression) {
        Ok(codec) => codec,
        Err(message) => {
            return Err(value_error(message));
        },
    };
    match parse_type_mismatch_policy(on_type_mismatch) {
        Ok(on_type_mismatch) => Ok(
            StoreConfig { codec, on_type_mismatch, meta_format, meta_compression },
        ),
        Err(message) => Err(value_error(message)),
    }
}

/// The Python type of a value for an attribute. A `bool` is no `int` here.
#[derive(Debug, Clone, Copy, PartialEq, Eq, Structural)]
pub enum ValueKind {
    /// `bool`.
    Bool,
    /// `str`.
    Text,
    /// `bytes`.
    Bytes,
    /// `int`.
    Int,
    /// `float`.
    Float,
    /// Any other type.
    Other,
}

/// The type an attribute gets: the type a hint names, or else the widest type
/// of the value's kind.
pub open spec fn attribute_dtype(
    hint: Option<Seq<char>>,
    kind: ValueKind,
    given: Seq<char>,
) -> Result<DType, Raised<Seq<char>>> {
    match hint {
        Some(hint) => or_refuse(
            named(lowered(hint)),
            "unknown attribute dtype: "@,
            hint,
            Seq::empty(),
        ),
        None => match kind {
            ValueKind::Bool => Ok(DType::Bool),
            ValueKind::Text => Ok(DType::String),
            ValueKind::Bytes => Ok(DType::Binary),
            ValueKind::Int => Ok(DType::Int64),
            ValueKind::Float => Ok(DType::Float64),
            ValueKind::Other => Err(
                raise(ErrorClass::Value, "unsupported attribute type: "@ + quoted(given)),
            ),
        },
    }
}

/// Decides the type as which a value is stored in an attribute. `given` is the
/// name of the value's Python type, for the report.
pub fn plan_attribute(hint: Option<&str>, kind: ValueKind, given: &str) -> (dtype: Result<
    DType,
    Raised,
>)
    ensures
        outcome(dtype) == attribute_dtype(
            match hint {
                Some(h) => Some(h@),
                None => None,
            },
            kind,
            given@,
        ),
{
    match hint {
        Some(hint) => match parse_attribute_dtype(hint) {
            Ok(dtype) => Ok(dtype),
            Err(message) => Err(value_error(message)),
        },
        None => match kind {
            ValueKind::Bool => Ok(DType::Bool),
            ValueKind::Text => Ok(DType::String),
            ValueKind::Bytes => Ok(DType::Binary),
            ValueKind::Int => Ok(DType::Int64),
            ValueKind::Float => Ok(DType::Float64),
            ValueKind::Other => {
                let mut message: String = "unsupported attribute type: ".to_owned();
                message.append(quote(given).as_str());
                Err(value_error(message))
            },
        },
    }
}

/// What a context manager does when its block ends.
#[derive(Debug, Clone, Copy, PartialEq, Eq, Structural)]
pub enum Exit {
    /// Commit what was written.
    Finish,
    /// Drop it, and let the exception propagate.
    Discard,
}

/// What a context manager does when its block ends: it commits on a clean exit,
/// and discards on an exception.
pub fn on_exit(exception: bool) -> (exit: Exit)
    ensures
        exit == (if exception {
            Exit::Discard
        } else {
            Exit::Finish
        }),
{
    if exception {
        Exit::Discard
    } else {
        Exit::Finish
    }
}

/// How a writer shows itself. `datasets` is how many it has committed, while it
/// is open.
pub fn writer_repr(datasets: Option<usize>) -> (text: String)
    ensures
        text@ == match datasets {
            Some(n) => "<AtlasWriter datasets="@ + decimal(n as nat) + ">"@,
            None => "<AtlasWriter finished>"@,
        },
{
    match datasets {
        Some(n) => {
            let mut text: String = "<AtlasWriter datasets=".to_owned();
            text.append(decimal_text(n as u64).as_str());
            text.append(">");
            text
        },
        None => "<AtlasWriter finished>".to_owned(),
    }
}

/// How a dataset shows itself: a class, a name, and how many arrays it has.
pub open spec fn dataset_shown(class: Seq<char>, name: Seq<char>, arrays: nat) -> Seq<char> {
    class + " name="@ + quoted(name) + " arrays="@ + decimal(arrays) + ">"@
}

fn dataset_text(class: &str, name: &str, arrays: usize) -> (text: String)
    ensures
        text@ == dataset_shown(class@, name@, arrays as nat),
{
    let mut text: String = class.to_owned();
    text.append(" name=");
    text.append(quote(name).as_str());
    text.append(" arrays=");
    text.append(decimal_text(arrays as u64).as_str());
    text.append(">");
    text
}

/// How a dataset writer shows itself. `name` is absent once it has finished.
pub fn dataset_writer_repr(name: Option<&str>, arrays: usize) -> (text: String)
    ensures
        text@ == match name {
            Some(name) => dataset_shown("<DatasetWriter"@, name@, arrays as nat),
            None => "<DatasetWriter finished>"@,
        },
{
    match name {
        Some(name) => dataset_text("<DatasetWriter", name, arrays),
        None => "<DatasetWriter finished>".to_owned(),
    }
}

/// How a view of a dataset shows itself.
pub fn dataset_view_repr(name: &str, arrays: usize) -> (text: String)
    ensures
        text@ == dataset_shown("<DatasetView"@, name@, arrays as nat),
{
    dataset_text("<DatasetView", name, arrays)
}

/// How a collection shows itself.
pub fn atlas_repr(datasets: usize) -> (text: String)
    ensures
        text@ == "<Atlas datasets="@ + decimal(datasets as nat) + ">"@,
{
    let mut text: String = "<Atlas datasets=".to_owned();
    text.append(decimal_text(datasets as u64).as_str());
    text.append(">");
    text
}

/// The settings of a writer are those that were asked for: the codec that the
/// word names, whatever its letter case, and the block size, which must be
/// positive, or the default where none is given.
pub proof fn law_writer_settings_are_those_asked_for(codec: Seq<char>, size: usize)
    ensures
        writer_settings(codec, Some(0)) is Err,
        writer_settings(codec, None) is Ok <==> codec_named(lowered(codec)) is Some,
        size > 0 ==> (writer_settings(codec, Some(size)) is Ok <==> codec_named(lowered(codec))
            is Some),
        writer_settings(codec, Some(size)) matches Ok(s) ==> Some(s.0) == codec_named(
            lowered(codec),
        ) && s.1 == size,
        writer_settings(codec, None) matches Ok(s) ==> Some(s.0) == codec_named(lowered(codec))
            && s.1 == DEFAULT_BLOCK_TARGET_SIZE,
{
}

/// Each setting of a store is the one that its own word names, and every word
/// must name one.
pub proof fn law_store_settings_are_those_asked_for(
    codec: Seq<char>,
    meta_format: Seq<char>,
    meta_compression: Seq<char>,
    on_type_mismatch: Seq<char>,
)
    ensures
        ({
            let settings = store_settings(codec, meta_format, meta_compression, on_type_mismatch);
            &&& settings is Ok <==> codec_named(lowered(codec)) is Some && meta_format_named(
                lowered(meta_format),
            ) is Some && codec_named(lowered(meta_compression)) is Some && policy_named(
                lowered(on_type_mismatch),
            ) is Some
            &&& settings matches Ok(s) ==> {
                &&& Some(s.codec) == codec_named(lowered(codec))
                &&& Some(s.meta_format) == meta_format_named(lowered(meta_format))
                &&& Some(s.meta_compression) == codec_named(lowered(meta_compression))
                &&& Some(s.on_type_mismatch) == policy_named(lowered(on_type_mismatch))
            }
        }),
{
}

/// A hint decides the type of an attribute, whatever the value is. Without one,
/// the type is the widest that a value of its kind needs: no narrower integer
/// and no narrower float. A value of another kind is refused.
pub proof fn law_a_hint_decides_the_attribute_type(
    hint: Seq<char>,
    kind: ValueKind,
    given: Seq<char>,
    dtype: DType,
)
    ensures
        attribute_dtype(Some(hint), kind, given) == Ok::<DType, Raised<Seq<char>>>(dtype) <==> named(
            lowered(hint),
        ) == Some(dtype),
        attribute_dtype(None, kind, given) is Ok <==> kind !is Other,
        attribute_dtype(None, kind, given) == Ok::<DType, Raised<Seq<char>>>(dtype) <==> match dtype {
            DType::Bool => kind is Bool,
            DType::Int64 => kind is Int,
            DType::Float64 => kind is Float,
            DType::String => kind is Text,
            DType::Binary => kind is Bytes,
            _ => false,
        },
{
}

} // verus!
