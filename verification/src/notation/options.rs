//! Options in writing: codecs, metadata encodings, policies, and the types of
//! attributes. The case of the letters does not matter.

use super::dtype::{name_of, named};
use super::words::{lowered, quote, quoted};
use crate::config::{
    law_names_of_metadata_files, meta_file, Codec, MetaFormat, TypeMismatchPolicy,
};
use crate::schema::dtype::DType;
use crate::text::same_text;
use vstd::prelude::*;

verus! {

/// The codec that a word names.
pub open spec fn codec_named(word: Seq<char>) -> Option<Codec> {
    if word == "zstd"@ {
        Some(Codec::Zstd)
    } else if word == "lz4"@ {
        Some(Codec::Lz4)
    } else if word == "none"@ || word == "uncompressed"@ {
        Some(Codec::Uncompressed)
    } else {
        None
    }
}

/// The word for a codec.
pub open spec fn codec_word(codec: Codec) -> Seq<char> {
    match codec {
        Codec::Zstd => "zstd"@,
        Codec::Lz4 => "lz4"@,
        Codec::Uncompressed => "none"@,
    }
}

/// The metadata encoding that a word names.
pub open spec fn meta_format_named(word: Seq<char>) -> Option<MetaFormat> {
    if word == "json"@ {
        Some(MetaFormat::Json)
    } else if word == "msgpack"@ || word == "mp"@ {
        Some(MetaFormat::MsgPack)
    } else {
        None
    }
}

/// The policy that a word names.
pub open spec fn policy_named(word: Seq<char>) -> Option<TypeMismatchPolicy> {
    if word == "warn"@ || word == "warning"@ {
        Some(TypeMismatchPolicy::Warn)
    } else if word == "error"@ || word == "raise"@ || word == "strict"@ {
        Some(TypeMismatchPolicy::Error)
    } else {
        None
    }
}

/// A message that shows a word, between what it is and what was expected.
pub open spec fn refusal(what: Seq<char>, word: Seq<char>, expected: Seq<char>) -> Seq<char> {
    what + quoted(lowered(word)) + expected
}

fn refuse(what: &str, word: &str, expected: &str) -> (message: String)
    ensures
        message@ == what@ + quoted(word@) + expected@,
{
    let mut message: String = what.to_owned();
    message.append(quote(word).as_str());
    message.append(expected);
    message
}

/// The name of a codec reads back as the codec.
pub proof fn law_codec_names_read_back(codec: Codec)
    ensures
        codec_named(lowered(codec_word(codec))) == Some(codec),
{
    reveal_strlit("zstd");
    reveal_strlit("lz4");
    reveal_strlit("none");
    assert(lowered("zstd"@) =~= "zstd"@);
    assert(lowered("lz4"@) =~= "lz4"@);
    assert(lowered("none"@) =~= "none"@);
    assert("none"@[0] != "zstd"@[0]);
    assert("lz4"@.len() != "zstd"@.len());
    assert("none"@.len() != "lz4"@.len());
}

/// Reads the name of a codec.
pub fn parse_codec(s: &str) -> (codec: Result<Codec, String>)
    ensures
        match codec {
            Ok(codec) => codec_named(lowered(s@)) == Some(codec),
            Err(message) => codec_named(lowered(s@)) is None && message@ == refusal(
                "unknown codec: "@,
                s@,
                " (expected 'zstd', 'lz4', or 'none')"@,
            ),
        },
{
    let low: String = s.to_ascii_lowercase();
    let word: &str = low.as_str();
    if same_text(word, "zstd") {
        Ok(Codec::Zstd)
    } else if same_text(word, "lz4") {
        Ok(Codec::Lz4)
    } else if same_text(word, "none") || same_text(word, "uncompressed") {
        Ok(Codec::Uncompressed)
    } else {
        Err(refuse("unknown codec: ", word, " (expected 'zstd', 'lz4', or 'none')"))
    }
}

/// The name of a codec.
pub fn codec_name(codec: Codec) -> (name: &'static str)
    ensures
        name@ == codec_word(codec),
{
    match codec {
        Codec::Zstd => "zstd",
        Codec::Lz4 => "lz4",
        Codec::Uncompressed => "none",
    }
}

/// Reads the name of a metadata encoding.
pub fn parse_meta_format(s: &str) -> (format: Result<MetaFormat, String>)
    ensures
        match format {
            Ok(format) => meta_format_named(lowered(s@)) == Some(format),
            Err(message) => meta_format_named(lowered(s@)) is None && message@ == refusal(
                "unknown meta_format: "@,
                s@,
                " (expected 'json' or 'msgpack')"@,
            ),
        },
{
    let low: String = s.to_ascii_lowercase();
    let word: &str = low.as_str();
    if same_text(word, "json") {
        Ok(MetaFormat::Json)
    } else if same_text(word, "msgpack") || same_text(word, "mp") {
        Ok(MetaFormat::MsgPack)
    } else {
        Err(refuse("unknown meta_format: ", word, " (expected 'json' or 'msgpack')"))
    }
}

/// Reads what happens on a type that does not merge.
pub fn parse_type_mismatch_policy(s: &str) -> (policy: Result<TypeMismatchPolicy, String>)
    ensures
        match policy {
            Ok(policy) => policy_named(lowered(s@)) == Some(policy),
            Err(message) => policy_named(lowered(s@)) is None && message@ == refusal(
                "unknown on_type_mismatch: "@,
                s@,
                " (expected 'warn' or 'error')"@,
            ),
        },
{
    let low: String = s.to_ascii_lowercase();
    let word: &str = low.as_str();
    if same_text(word, "warn") || same_text(word, "warning") {
        Ok(TypeMismatchPolicy::Warn)
    } else if same_text(word, "error") || same_text(word, "raise") || same_text(word, "strict") {
        Ok(TypeMismatchPolicy::Error)
    } else {
        Err(refuse("unknown on_type_mismatch: ", word, " (expected 'warn' or 'error')"))
    }
}

/// Reads the type an attribute is to have: a single word, without white space
/// around it.
pub fn parse_attribute_dtype(hint: &str) -> (d: Result<DType, String>)
    ensures
        match d {
            Ok(d) => named(lowered(hint@)) == Some(d),
            Err(message) => named(lowered(hint@)) is None && message@ == refusal(
                "unknown attribute dtype: "@,
                hint@,
                Seq::empty(),
            ),
        },
{
    let low: String = hint.to_ascii_lowercase();
    match name_of(low.as_str()) {
        Some(d) => Ok(d),
        None => {
            let message: String = refuse("unknown attribute dtype: ", low.as_str(), "");
            proof {
                reveal_strlit("");
                assert(""@ =~= Seq::<char>::empty());
            }
            Err(message)
        },
    }
}

/// A compressed metadata file ends in the first letters of the codec's word, and
/// the encoding is named by the word its file ends in.
pub proof fn law_files_are_named_by_the_words_for_them(format: MetaFormat, codec: Codec)
    ensures
        codec !is Uncompressed ==> meta_file(format, codec) == meta_file(
            format,
            Codec::Uncompressed,
        ) + "."@ + codec_word(codec).take(3),
        forall|word: Seq<char>| #[trigger]
            meta_format_named(word) == Some(format) && word != "mp"@ ==> meta_file(
                format,
                Codec::Uncompressed,
            ) == "atlas."@ + word,
{
    law_names_of_metadata_files((format, codec), (format, codec));
    reveal_strlit(".");
    reveal_strlit(".zst");
    reveal_strlit(".lz4");
    reveal_strlit("zstd");
    reveal_strlit("lz4");
    assert(".zst"@ =~= "."@ + "zstd"@.take(3));
    assert(".lz4"@ =~= "."@ + "lz4"@.take(3));
    let bare = meta_file(format, Codec::Uncompressed);
    assert(bare + ".zst"@ =~= bare + "."@ + "zstd"@.take(3));
    assert(bare + ".lz4"@ =~= bare + "."@ + "lz4"@.take(3));
    reveal_strlit("atlas.");
    reveal_strlit("json");
    reveal_strlit("msgpack");
    reveal_strlit("atlas.json");
    reveal_strlit("atlas.msgpack");
    assert("atlas.json"@ =~= "atlas."@ + "json"@);
    assert("atlas.msgpack"@ =~= "atlas."@ + "msgpack"@);
}

/// No word names two things: the words for a warning and those for an error are
/// told apart by their letters, and so are those for no compression.
pub proof fn law_words_for_policies(word: Seq<char>)
    ensures
        policy_named(word) == Some(TypeMismatchPolicy::Warn) <==> word == seq!['w', 'a', 'r', 'n']
            || word == seq!['w', 'a', 'r', 'n'] + seq!['i', 'n', 'g'],
        policy_named(word) == Some(TypeMismatchPolicy::Error) <==> word == "error"@ || word
            == "raise"@ || word == "strict"@,
        codec_named(word) == Some(Codec::Uncompressed) <==> word == "none"@ || word
            == "uncompressed"@,
        meta_format_named(word) == Some(MetaFormat::MsgPack) <==> word == "msgpack"@ || word
            == "mp"@,
{
    reveal_strlit("warn");
    reveal_strlit("warning");
    reveal_strlit("error");
    reveal_strlit("raise");
    reveal_strlit("strict");
    reveal_strlit("none");
    reveal_strlit("uncompressed");
    reveal_strlit("zstd");
    reveal_strlit("lz4");
    reveal_strlit("json");
    reveal_strlit("msgpack");
    reveal_strlit("mp");
    assert("warn"@ =~= seq!['w', 'a', 'r', 'n']);
    assert("warning"@ =~= seq!['w', 'a', 'r', 'n'] + seq!['i', 'n', 'g']);
    assert("warn"@.len() == 4 && "warning"@.len() == 7 && "error"@.len() == 5 && "raise"@.len() == 5
        && "strict"@.len() == 6);
    assert("none"@.len() == 4 && "uncompressed"@.len() == 12 && "zstd"@.len() == 4 && "lz4"@.len()
        == 3);
    assert("none"@[0] != "zstd"@[0]);
    assert("json"@.len() == 4 && "msgpack"@.len() == 7 && "mp"@.len() == 2);
}

} // verus!
