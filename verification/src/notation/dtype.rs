//! Types in writing: `int32`, `list[string]`, `fixed_size_list[float32,3]`.

use super::words::{
    all_digits, between, is_blank, is_last_of, lemma_decimal_reads_back, lemma_trimmed_at,
    lemma_trimmed_is_no_longer, lower, lowered, number, parse_number, quote, quoted,
    split_at_last_comma, strip_prefix_suffix, trim, trimmed, unsigned_part,
};
use crate::schema::dtype::{numeric_of, shown, DType, Numeric};
use crate::text::{decimal, decimal_text, same_text};
use vstd::prelude::*;

verus! {

/// The type that a single word names.
pub open spec fn named(word: Seq<char>) -> Option<DType> {
    if word == "bool"@ {
        Some(DType::Bool)
    } else if word == "i8"@ || word == "int8"@ {
        Some(DType::Int8)
    } else if word == "i16"@ || word == "int16"@ {
        Some(DType::Int16)
    } else if word == "i32"@ || word == "int32"@ {
        Some(DType::Int32)
    } else if word == "i64"@ || word == "int64"@ {
        Some(DType::Int64)
    } else if word == "u8"@ || word == "uint8"@ {
        Some(DType::UInt8)
    } else if word == "u16"@ || word == "uint16"@ {
        Some(DType::UInt16)
    } else if word == "u32"@ || word == "uint32"@ {
        Some(DType::UInt32)
    } else if word == "u64"@ || word == "uint64"@ {
        Some(DType::UInt64)
    } else if word == "f32"@ || word == "float32"@ {
        Some(DType::Float32)
    } else if word == "f64"@ || word == "float64"@ {
        Some(DType::Float64)
    } else if word == "string"@ || word == "str"@ {
        Some(DType::String)
    } else if word == "binary"@ || word == "bytes"@ {
        Some(DType::Binary)
    } else if word == "timestamp_ns"@ || word == "timestamp_nanoseconds"@ || word == "datetime64[ns]"@ {
        Some(DType::TimestampNs)
    } else {
        None
    }
}

/// The place of the last comma of a text.
pub open spec fn last_comma(s: Seq<char>) -> int {
    choose|at: int| is_last_of(s, ',', at)
}

/// The type that a text writes, whatever the case of its letters. A list names
/// its element type in brackets, and a list of a fixed length its element type
/// and its length.
pub open spec fn parsed(s: Seq<char>) -> Option<DType>
    decreases s.len(),
{
    proof {
        reveal_strlit("list[");
        reveal_strlit("fixed_size_list[");
    }
    let low = lowered(s);
    match between(low, "list["@, "]"@) {
        Some(inner) => match parsed(inner) {
            Some(child) => Some(DType::List { child: Box::new(child) }),
            None => None,
        },
        None => match between(low, "fixed_size_list["@, "]"@) {
            Some(inner) => if inner.contains(',') {
                let at = last_comma(inner);
                let head = trimmed(inner.take(at));
                proof {
                    let i = inner.index_of(',');
                    lemma_some_comma_is_last(inner, i);
                    lemma_trimmed_is_no_longer(inner.take(at));
                }
                match (parsed(head), number(trimmed(inner.skip(at + 1)))) {
                    (Some(child), Some(size)) => Some(
                        DType::FixedSizeList { child: Box::new(child), size },
                    ),
                    _ => None,
                }
            } else {
                None
            },
            None => named(low),
        },
    }
}

/// The text that writes a type.
pub open spec fn printed(d: DType) -> Seq<char>
    decreases d,
{
    match d {
        DType::Bool => "bool"@,
        DType::Int8 => "int8"@,
        DType::Int16 => "int16"@,
        DType::Int32 => "int32"@,
        DType::Int64 => "int64"@,
        DType::UInt8 => "uint8"@,
        DType::UInt16 => "uint16"@,
        DType::UInt32 => "uint32"@,
        DType::UInt64 => "uint64"@,
        DType::Float32 => "float32"@,
        DType::Float64 => "float64"@,
        DType::String => "string"@,
        DType::Binary => "binary"@,
        DType::TimestampNs => "timestamp_nanoseconds"@,
        DType::List { child } => "list["@ + printed(*child) + "]"@,
        DType::FixedSizeList { child, size } => "fixed_size_list["@ + printed(*child) + ","@
            + decimal(size as nat) + "]"@,
    }
}

/// A text with a comma has a last comma.
pub proof fn lemma_some_comma_is_last(s: Seq<char>, i: int)
    requires
        0 <= i < s.len(),
        s[i] == ',',
    ensures
        exists|at: int| is_last_of(s, ',', at),
    decreases s.len() - i,
{
    if is_last_of(s, ',', i) {
    } else {
        let j = choose|j: int| i < j < s.len() && s[j] == ',';
        lemma_some_comma_is_last(s, j);
    }
}

/// No character of a text has a lower case form, and none is white space.
spec fn settled(s: Seq<char>) -> bool {
    &&& s.len() != 0
    &&& forall|i: int|
        0 <= i < s.len() ==> lower(#[trigger] s[i]) == s[i] && !is_blank(s[i])
}

proof fn lemma_settled_text_stays(s: Seq<char>)
    requires
        settled(s),
    ensures
        lowered(s) == s,
        trimmed(s) == s,
{
    assert(lowered(s) =~= s);
    lemma_trimmed_at(s, 0, s.len() as int);
    assert(s.subrange(0, s.len() as int) =~= s);
}

proof fn lemma_digits_are_settled(s: Seq<char>)
    requires
        s.len() != 0,
        all_digits(s),
    ensures
        settled(s),
{
}

proof fn lemma_printed_is_settled(d: DType)
    ensures
        settled(printed(d)),
    decreases d,
{
    reveal_strlit("bool");
    reveal_strlit("int8");
    reveal_strlit("int16");
    reveal_strlit("int32");
    reveal_strlit("int64");
    reveal_strlit("uint8");
    reveal_strlit("uint16");
    reveal_strlit("uint32");
    reveal_strlit("uint64");
    reveal_strlit("float32");
    reveal_strlit("float64");
    reveal_strlit("string");
    reveal_strlit("binary");
    reveal_strlit("timestamp_nanoseconds");
    reveal_strlit("list[");
    reveal_strlit("fixed_size_list[");
    reveal_strlit("]");
    reveal_strlit(",");
    match d {
        DType::List { child } => {
            lemma_printed_is_settled(*child);
        },
        DType::FixedSizeList { child, size } => {
            lemma_printed_is_settled(*child);
            lemma_decimal_reads_back(size as nat);
            lemma_digits_are_settled(decimal(size as nat));
        },
        _ => {},
    }
}

proof fn lemma_words_name_their_types(d: DType)
    requires
        !(d is List),
        !(d is FixedSizeList),
    ensures
        named(printed(d)) == Some(d),
{
    reveal_strlit("bool");
    reveal_strlit("int8");
    reveal_strlit("int16");
    reveal_strlit("int32");
    reveal_strlit("int64");
    reveal_strlit("uint8");
    reveal_strlit("uint16");
    reveal_strlit("uint32");
    reveal_strlit("uint64");
    reveal_strlit("float32");
    reveal_strlit("float64");
    reveal_strlit("string");
    reveal_strlit("binary");
    reveal_strlit("timestamp_nanoseconds");
    reveal_strlit("i8");
    reveal_strlit("i16");
    reveal_strlit("i32");
    reveal_strlit("i64");
    reveal_strlit("u8");
    reveal_strlit("u16");
    reveal_strlit("u32");
    reveal_strlit("u64");
    reveal_strlit("f32");
    reveal_strlit("f64");
    reveal_strlit("str");
    reveal_strlit("bytes");
    reveal_strlit("timestamp_ns");
    reveal_strlit("datetime64[ns]");
    assert("bool"@.len() == 4);
    assert("i8"@.len() == 2);
    assert("int8"@.len() == 4);
    assert("i16"@.len() == 3);
    assert("int16"@.len() == 5);
    assert("i32"@.len() == 3);
    assert("int32"@.len() == 5);
    assert("i64"@.len() == 3);
    assert("int64"@.len() == 5);
    assert("u8"@.len() == 2);
    assert("uint8"@.len() == 5);
    assert("u16"@.len() == 3);
    assert("uint16"@.len() == 6);
    assert("u32"@.len() == 3);
    assert("uint32"@.len() == 6);
    assert("u64"@.len() == 3);
    assert("uint64"@.len() == 6);
    assert("f32"@.len() == 3);
    assert("float32"@.len() == 7);
    assert("f64"@.len() == 3);
    assert("float64"@.len() == 7);
    assert("string"@.len() == 6);
    assert("str"@.len() == 3);
    assert("binary"@.len() == 6);
    assert("bytes"@.len() == 5);
    assert("timestamp_ns"@.len() == 12);
    assert("timestamp_nanoseconds"@.len() == 21);
    assert("datetime64[ns]"@.len() == 14);
    assert("int8"@[0] != "bool"@[0]);
    assert("int32"@[3] != "int16"@[3]);
    assert("int64"@[3] != "int16"@[3]);
    assert("int64"@[3] != "int32"@[3]);
    assert("uint8"@[0] != "int16"@[0]);
    assert("uint8"@[0] != "int32"@[0]);
    assert("uint8"@[0] != "int64"@[0]);
    assert("uint32"@[4] != "uint16"@[4]);
    assert("uint64"@[4] != "uint16"@[4]);
    assert("uint64"@[4] != "uint32"@[4]);
    assert("float64"@[5] != "float32"@[5]);
    assert("string"@[0] != "uint16"@[0]);
    assert("string"@[0] != "uint32"@[0]);
    assert("string"@[0] != "uint64"@[0]);
    assert("binary"@[0] != "uint16"@[0]);
    assert("binary"@[0] != "uint32"@[0]);
    assert("binary"@[0] != "uint64"@[0]);
    assert("binary"@[0] != "string"@[0]);
}

proof fn lemma_words_read_back(d: DType)
    requires
        !(d is List),
        !(d is FixedSizeList),
    ensures
        parsed(printed(d)) == Some(d),
{
    lemma_printed_is_settled(d);
    lemma_settled_text_stays(printed(d));
    reveal_strlit("bool");
    reveal_strlit("int8");
    reveal_strlit("int16");
    reveal_strlit("int32");
    reveal_strlit("int64");
    reveal_strlit("uint8");
    reveal_strlit("uint16");
    reveal_strlit("uint32");
    reveal_strlit("uint64");
    reveal_strlit("float32");
    reveal_strlit("float64");
    reveal_strlit("string");
    reveal_strlit("binary");
    reveal_strlit("timestamp_nanoseconds");
    reveal_strlit("list[");
    reveal_strlit("fixed_size_list[");
    reveal_strlit("]");
    reveal_strlit(",");
    let s = printed(d);
    assert(between(s, "list["@, "]"@) is None) by {
        assert(s[0] != "list["@[0]);
    }
    assert(between(s, "fixed_size_list["@, "]"@) is None) by {
        assert(s[0] != "fixed_size_list["@[0] || s[1] != "fixed_size_list["@[1]);
    }
    lemma_words_name_their_types(d);
}

proof fn lemma_enclosed(opening: Seq<char>, inner: Seq<char>, closing: Seq<char>)
    ensures
        between(opening + inner + closing, opening, closing) == Some(inner),
{
    let s = opening + inner + closing;
    assert(opening =~= s.subrange(0, opening.len() as int));
    let tail = s.skip(opening.len() as int);
    assert(closing =~= tail.subrange(tail.len() - closing.len(), tail.len() as int));
    assert(s.subrange(opening.len() as int, s.len() - closing.len()) =~= inner);
}

/// A type that is written down reads back as the same type.
pub proof fn law_written_types_read_back(d: DType)
    ensures
        parsed(trimmed(printed(d))) == Some(d),
    decreases d,
{
    lemma_printed_is_settled(d);
    lemma_settled_text_stays(printed(d));
    let s = printed(d);
    match d {
        DType::List { child } => {
            law_written_types_read_back(*child);
            lemma_printed_is_settled(*child);
            lemma_settled_text_stays(printed(*child));
            lemma_enclosed("list["@, printed(*child), "]"@);
        },
        DType::FixedSizeList { child, size } => {
            law_written_types_read_back(*child);
            let head = printed(*child);
            let tail = decimal(size as nat);
            lemma_printed_is_settled(*child);
            lemma_settled_text_stays(head);
            lemma_decimal_reads_back(size as nat);
            lemma_digits_are_settled(tail);
            lemma_settled_text_stays(tail);
            reveal_strlit(",");
            reveal_strlit("list[");
            reveal_strlit("fixed_size_list[");
            let inner = head + ","@ + tail;
            lemma_enclosed("fixed_size_list["@, inner, "]"@);
            assert(s =~= "fixed_size_list["@ + inner + "]"@);
            assert(between(s, "list["@, "]"@) is None) by {
                assert(s[0] != "list["@[0]);
            }
            assert(inner[head.len() as int] == ',');
            assert(is_last_of(inner, ',', head.len() as int)) by {
                assert forall|j: int| head.len() < j < inner.len() implies inner[j] != ',' by {
                    assert(inner[j] == tail[j - head.len() - 1]);
                }
            }
            assert(is_last_of(inner, ',', last_comma(inner)));
            assert(last_comma(inner) == head.len());
            assert(inner.take(head.len() as int) =~= head);
            assert(inner.skip(head.len() as int + 1) =~= tail);
            assert(tail[0] != '+');
            assert(unsigned_part(tail) == tail);
            assert(number(tail) == Some(size));
        },
        _ => {
            lemma_words_read_back(d);
        },
    }
}

/// The case of the letters and the white space around a text do not matter:
/// the text in lower case, and without its surroundings, writes the same type.
pub proof fn law_case_and_surroundings_do_not_matter(s: Seq<char>)
    ensures
        parsed(lowered(s)) == parsed(s),
        trimmed(trimmed(s)) == trimmed(s),
{
    assert(lowered(lowered(s)) =~= lowered(s));
    lemma_trimming_settles(s);
}

proof fn lemma_trimming_settles(s: Seq<char>)
    ensures
        trimmed(trimmed(s)) == trimmed(s),
    decreases s.len(),
{
    if s.len() != 0 {
        if is_blank(s[0]) {
            lemma_trimming_settles(s.drop_first());
        } else if is_blank(s.last()) {
            lemma_trimming_settles(s.drop_last());
        }
    }
}

/// The message that refuses a text that writes no type.
pub open spec fn unknown_dtype(s: Seq<char>) -> Seq<char> {
    "unknown dtype string: "@ + quoted(s)
}

/// The type that a single word names.
pub fn name_of(word: &str) -> (d: Option<DType>)
    ensures
        d == named(word@),
{
    if same_text(word, "bool") {
        Some(DType::Bool)
    } else if same_text(word, "i8") || same_text(word, "int8") {
        Some(DType::Int8)
    } else if same_text(word, "i16") || same_text(word, "int16") {
        Some(DType::Int16)
    } else if same_text(word, "i32") || same_text(word, "int32") {
        Some(DType::Int32)
    } else if same_text(word, "i64") || same_text(word, "int64") {
        Some(DType::Int64)
    } else if same_text(word, "u8") || same_text(word, "uint8") {
        Some(DType::UInt8)
    } else if same_text(word, "u16") || same_text(word, "uint16") {
        Some(DType::UInt16)
    } else if same_text(word, "u32") || same_text(word, "uint32") {
        Some(DType::UInt32)
    } else if same_text(word, "u64") || same_text(word, "uint64") {
        Some(DType::UInt64)
    } else if same_text(word, "f32") || same_text(word, "float32") {
        Some(DType::Float32)
    } else if same_text(word, "f64") || same_text(word, "float64") {
        Some(DType::Float64)
    } else if same_text(word, "string") || same_text(word, "str") {
        Some(DType::String)
    } else if same_text(word, "binary") || same_text(word, "bytes") {
        Some(DType::Binary)
    } else if same_text(word, "timestamp_ns") || same_text(word, "timestamp_nanoseconds") || same_text(word, "datetime64[ns]") {
        Some(DType::TimestampNs)
    } else {
        None
    }
}

fn parse_dtype_inner(s: &str) -> (d: Option<DType>)
    ensures
        d == parsed(s@),
    decreases s@.len(),
{
    proof {
        reveal_strlit("list[");
        reveal_strlit("fixed_size_list[");
    }
    let low: String = s.to_ascii_lowercase();
    let word: &str = low.as_str();
    match strip_prefix_suffix(word, "list[", "]") {
        Some(inner) => {
            return match parse_dtype_inner(inner) {
                Some(child) => Some(DType::List { child: Box::new(child) }),
                None => None,
            };
        },
        None => {},
    }
    match strip_prefix_suffix(word, "fixed_size_list[", "]") {
        Some(inner) => match split_at_last_comma(inner) {
            Some((head, tail)) => {
                proof {
                    let at = choose|at: int| #[trigger]
                        is_last_of(inner@, ',', at) && head@ == inner@.take(at) && tail@
                            == inner@.skip(at + 1);
                    assert(is_last_of(inner@, ',', last_comma(inner@)));
                    assert(at == last_comma(inner@));
                    lemma_trimmed_is_no_longer(head@);
                }
                let child: Option<DType> = parse_dtype_inner(trim(head));
                let size: Option<u32> = parse_number(trim(tail));
                match (child, size) {
                    (Some(child), Some(size)) => Some(
                        DType::FixedSizeList { child: Box::new(child), size },
                    ),
                    _ => None,
                }
            },
            None => None,
        },
        None => name_of(word),
    }
}

/// Reads a type. White space around it and the case of its letters do not
/// matter.
pub fn parse_dtype(s: &str) -> (d: Result<DType, String>)
    ensures
        match d {
            Ok(d) => parsed(trimmed(s@)) == Some(d),
            Err(message) => parsed(trimmed(s@)) is None && message@ == unknown_dtype(s@),
        },
{
    match parse_dtype_inner(trim(s)) {
        Some(d) => Ok(d),
        None => {
            let mut message: String = "unknown dtype string: ".to_owned();
            message.append(quote(s).as_str());
            Err(message)
        },
    }
}

/// Writes a type, in the words that `parse_dtype` reads.
pub fn dtype_to_string(dtype: &DType) -> (text: String)
    ensures
        text@ == printed(*dtype),
    decreases dtype,
{
    match dtype {
        DType::Bool => "bool".to_owned(),
        DType::Int8 => "int8".to_owned(),
        DType::Int16 => "int16".to_owned(),
        DType::Int32 => "int32".to_owned(),
        DType::Int64 => "int64".to_owned(),
        DType::UInt8 => "uint8".to_owned(),
        DType::UInt16 => "uint16".to_owned(),
        DType::UInt32 => "uint32".to_owned(),
        DType::UInt64 => "uint64".to_owned(),
        DType::Float32 => "float32".to_owned(),
        DType::Float64 => "float64".to_owned(),
        DType::String => "string".to_owned(),
        DType::Binary => "binary".to_owned(),
        DType::TimestampNs => "timestamp_nanoseconds".to_owned(),
        DType::List { child } => {
            let mut text: String = "list[".to_owned();
            text.append(dtype_to_string(child).as_str());
            text.append("]");
            text
        },
        DType::FixedSizeList { child, size } => {
            let mut text: String = "fixed_size_list[".to_owned();
            text.append(dtype_to_string(child).as_str());
            text.append(",");
            text.append(decimal_text(*size as u64).as_str());
            text.append("]");
            text
        },
    }
}

/// The word for the kind of a number type.
pub open spec fn kind_word(n: Numeric) -> Seq<char> {
    match n {
        Numeric::Int(_) => "int"@,
        Numeric::UInt(_) => "uint"@,
        Numeric::Float(_) => "float"@,
    }
}

/// The letter for the kind of a number type.
pub open spec fn kind_letter(n: Numeric) -> Seq<char> {
    match n {
        Numeric::Int(_) => "i"@,
        Numeric::UInt(_) => "u"@,
        Numeric::Float(_) => "f"@,
    }
}

/// The width of a number type in bits.
pub open spec fn width_of(n: Numeric) -> nat {
    match n {
        Numeric::Int(w) | Numeric::UInt(w) | Numeric::Float(w) => w as nat,
    }
}

proof fn lemma_widths_are_written_in_two_digits()
    ensures
        decimal(8) == seq!['8'],
        decimal(16) == seq!['1', '6'],
        decimal(32) == seq!['3', '2'],
        decimal(64) == seq!['6', '4'],
{
    reveal_with_fuel(decimal, 3);
    assert(decimal(8) =~= seq!['8']);
    assert(decimal(16) =~= seq!['1', '6']);
    assert(decimal(32) =~= seq!['3', '2']);
    assert(decimal(64) =~= seq!['6', '4']);
}

proof fn lemma_number_words(d: DType, n: Numeric)
    requires
        numeric_of(d) == Some(n),
    ensures
        printed(d) == kind_word(n) + decimal(width_of(n)),
{
    reveal_strlit("int");
    reveal_strlit("uint");
    reveal_strlit("float");
    reveal_strlit("bool");
    reveal_strlit("i8");
    reveal_strlit("int8");
    reveal_strlit("i16");
    reveal_strlit("int16");
    reveal_strlit("i32");
    reveal_strlit("int32");
    reveal_strlit("i64");
    reveal_strlit("int64");
    reveal_strlit("u8");
    reveal_strlit("uint8");
    reveal_strlit("u16");
    reveal_strlit("uint16");
    reveal_strlit("u32");
    reveal_strlit("uint32");
    reveal_strlit("u64");
    reveal_strlit("uint64");
    reveal_strlit("f32");
    reveal_strlit("float32");
    reveal_strlit("f64");
    reveal_strlit("float64");
    lemma_widths_are_written_in_two_digits();
    assert("int8"@ =~= kind_word(Numeric::Int(8)) + decimal(8));
    assert("int16"@ =~= kind_word(Numeric::Int(16)) + decimal(16));
    assert("int32"@ =~= kind_word(Numeric::Int(32)) + decimal(32));
    assert("int64"@ =~= kind_word(Numeric::Int(64)) + decimal(64));
    assert("uint8"@ =~= kind_word(Numeric::UInt(8)) + decimal(8));
    assert("uint16"@ =~= kind_word(Numeric::UInt(16)) + decimal(16));
    assert("uint32"@ =~= kind_word(Numeric::UInt(32)) + decimal(32));
    assert("uint64"@ =~= kind_word(Numeric::UInt(64)) + decimal(64));
    assert("float32"@ =~= kind_word(Numeric::Float(32)) + decimal(32));
    assert("float64"@ =~= kind_word(Numeric::Float(64)) + decimal(64));
}

proof fn lemma_number_letters(d: DType, n: Numeric)
    requires
        numeric_of(d) == Some(n),
    ensures
        named(kind_letter(n) + decimal(width_of(n))) == Some(d),
{
    reveal_strlit("i");
    reveal_strlit("u");
    reveal_strlit("f");
    reveal_strlit("bool");
    reveal_strlit("i8");
    reveal_strlit("int8");
    reveal_strlit("i16");
    reveal_strlit("int16");
    reveal_strlit("i32");
    reveal_strlit("int32");
    reveal_strlit("i64");
    reveal_strlit("int64");
    reveal_strlit("u8");
    reveal_strlit("uint8");
    reveal_strlit("u16");
    reveal_strlit("uint16");
    reveal_strlit("u32");
    reveal_strlit("uint32");
    reveal_strlit("u64");
    reveal_strlit("uint64");
    reveal_strlit("f32");
    reveal_strlit("float32");
    reveal_strlit("f64");
    reveal_strlit("float64");
    lemma_widths_are_written_in_two_digits();
    assert("i8"@ =~= kind_letter(Numeric::Int(8)) + decimal(8));
    assert("i16"@ =~= kind_letter(Numeric::Int(16)) + decimal(16));
    assert("i32"@ =~= kind_letter(Numeric::Int(32)) + decimal(32));
    assert("i64"@ =~= kind_letter(Numeric::Int(64)) + decimal(64));
    assert("u8"@ =~= kind_letter(Numeric::UInt(8)) + decimal(8));
    assert("u16"@ =~= kind_letter(Numeric::UInt(16)) + decimal(16));
    assert("u32"@ =~= kind_letter(Numeric::UInt(32)) + decimal(32));
    assert("u64"@ =~= kind_letter(Numeric::UInt(64)) + decimal(64));
    assert("f32"@ =~= kind_letter(Numeric::Float(32)) + decimal(32));
    assert("f64"@ =~= kind_letter(Numeric::Float(64)) + decimal(64));
    assert("bool"@.len() == 4);
    assert("i8"@.len() == 2);
    assert("int8"@.len() == 4);
    assert("i16"@.len() == 3);
    assert("int16"@.len() == 5);
    assert("i32"@.len() == 3);
    assert("int32"@.len() == 5);
    assert("i64"@.len() == 3);
    assert("int64"@.len() == 5);
    assert("u8"@.len() == 2);
    assert("uint8"@.len() == 5);
    assert("u16"@.len() == 3);
    assert("uint16"@.len() == 6);
    assert("u32"@.len() == 3);
    assert("uint32"@.len() == 6);
    assert("u64"@.len() == 3);
    assert("uint64"@.len() == 6);
    assert("f32"@.len() == 3);
    assert("float32"@.len() == 7);
    assert("f64"@.len() == 3);
    assert("float64"@.len() == 7);
    assert("i32"@[1] != "i16"@[1]);
    assert("i64"@[1] != "i16"@[1]);
    assert("i64"@[1] != "i32"@[1]);
    assert("u8"@[0] != "i8"@[0]);
    assert("u16"@[0] != "i16"@[0]);
    assert("u16"@[0] != "i32"@[0]);
    assert("u16"@[0] != "i64"@[0]);
    assert("u32"@[0] != "i16"@[0]);
    assert("u32"@[0] != "i32"@[0]);
    assert("u32"@[0] != "i64"@[0]);
    assert("u32"@[1] != "u16"@[1]);
    assert("u64"@[0] != "i16"@[0]);
    assert("u64"@[0] != "i32"@[0]);
    assert("u64"@[0] != "i64"@[0]);
    assert("u64"@[1] != "u16"@[1]);
    assert("u64"@[1] != "u32"@[1]);
    assert("f32"@[0] != "i16"@[0]);
    assert("f32"@[0] != "i32"@[0]);
    assert("f32"@[0] != "i64"@[0]);
    assert("f32"@[0] != "u16"@[0]);
    assert("f32"@[0] != "u32"@[0]);
    assert("f32"@[0] != "u64"@[0]);
    assert("f64"@[0] != "i16"@[0]);
    assert("f64"@[0] != "i32"@[0]);
    assert("f64"@[0] != "i64"@[0]);
    assert("f64"@[0] != "u16"@[0]);
    assert("f64"@[0] != "u32"@[0]);
    assert("f64"@[0] != "u64"@[0]);
    assert("f64"@[1] != "f32"@[1]);
}

/// A number type is named by its kind and its width in bits: `int`, `uint` or
/// `float`, or the first letter of that, and the width. It is written with the
/// full word.
pub proof fn law_number_types_are_named_by_kind_and_width(d: DType, n: Numeric)
    requires
        numeric_of(d) == Some(n),
    ensures
        printed(d) == kind_word(n) + decimal(width_of(n)),
        named(kind_word(n) + decimal(width_of(n))) == Some(d),
        named(kind_letter(n) + decimal(width_of(n))) == Some(d),
{
    lemma_number_words(d, n);
    lemma_number_letters(d, n);
    lemma_words_name_their_types(d);
}

/// A type that is no list is written with the name that reports show, in lower
/// case. A timestamp alone has a longer word.
pub proof fn law_types_are_written_as_they_are_shown(d: DType)
    requires
        !(d is List),
        !(d is FixedSizeList),
        !(d is TimestampNs),
    ensures
        printed(d) == lowered(shown(d)),
{
    reveal_strlit("bool");
    reveal_strlit("i8");
    reveal_strlit("int8");
    reveal_strlit("i16");
    reveal_strlit("int16");
    reveal_strlit("i32");
    reveal_strlit("int32");
    reveal_strlit("i64");
    reveal_strlit("int64");
    reveal_strlit("u8");
    reveal_strlit("uint8");
    reveal_strlit("u16");
    reveal_strlit("uint16");
    reveal_strlit("u32");
    reveal_strlit("uint32");
    reveal_strlit("u64");
    reveal_strlit("uint64");
    reveal_strlit("f32");
    reveal_strlit("float32");
    reveal_strlit("f64");
    reveal_strlit("float64");
    reveal_strlit("Int8");
    reveal_strlit("Int16");
    reveal_strlit("Int32");
    reveal_strlit("Int64");
    reveal_strlit("UInt8");
    reveal_strlit("UInt16");
    reveal_strlit("UInt32");
    reveal_strlit("UInt64");
    reveal_strlit("Float32");
    reveal_strlit("Float64");
    reveal_strlit("Bool");
    reveal_strlit("String");
    reveal_strlit("string");
    reveal_strlit("Binary");
    reveal_strlit("binary");
    assert(lowered("Int8"@) =~= "int8"@);
    assert(lowered("Int16"@) =~= "int16"@);
    assert(lowered("Int32"@) =~= "int32"@);
    assert(lowered("Int64"@) =~= "int64"@);
    assert(lowered("UInt8"@) =~= "uint8"@);
    assert(lowered("UInt16"@) =~= "uint16"@);
    assert(lowered("UInt32"@) =~= "uint32"@);
    assert(lowered("UInt64"@) =~= "uint64"@);
    assert(lowered("Float32"@) =~= "float32"@);
    assert(lowered("Float64"@) =~= "float64"@);
    assert(lowered("Bool"@) =~= "bool"@);
    assert(lowered("String"@) =~= "string"@);
    assert(lowered("Binary"@) =~= "binary"@);
}

/// A list is written around its element type, with its length behind a comma
/// where that is fixed.
pub proof fn law_lists_are_written_around_their_elements(child: DType, size: u32)
    ensures
        printed(DType::List { child: Box::new(child) }) == "list["@ + printed(child) + "]"@,
        printed(DType::FixedSizeList { child: Box::new(child), size }) == "fixed_size_list["@
            + printed(child) + ","@ + decimal(size as nat) + "]"@,
{
}

} // verus!
