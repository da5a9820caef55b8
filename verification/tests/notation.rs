use atlas::config::{Codec, MetaFormat, TypeMismatchPolicy};
use atlas::notation::dtype::{dtype_to_string, parse_dtype};
use atlas::notation::options::{
    codec_name, parse_attribute_dtype, parse_codec, parse_meta_format, parse_type_mismatch_policy,
};
use atlas::notation::words::{parse_number, split_at_last_comma, strip_prefix_suffix, trim};
use atlas::schema::dtype::DType;

fn list(child: DType) -> DType {
    DType::List {
        child: Box::new(child),
    }
}

#[test]
fn every_type_reads_back() {
    let all = vec![
        DType::Bool,
        DType::Int8,
        DType::Int16,
        DType::Int32,
        DType::Int64,
        DType::UInt8,
        DType::UInt16,
        DType::UInt32,
        DType::UInt64,
        DType::Float32,
        DType::Float64,
        DType::String,
        DType::Binary,
        DType::TimestampNs,
        list(list(DType::Int8)),
        DType::FixedSizeList {
            child: Box::new(list(DType::Float32)),
            size: 4_294_967_295,
        },
    ];
    for d in all {
        let text = dtype_to_string(&d);
        assert_eq!(parse_dtype(&text), Ok(d), "{text}");
    }
}

#[test]
fn types_have_short_and_long_names() {
    assert_eq!(parse_dtype("i16"), Ok(DType::Int16));
    assert_eq!(parse_dtype("uint64"), Ok(DType::UInt64));
    assert_eq!(parse_dtype("str"), Ok(DType::String));
    assert_eq!(parse_dtype("bytes"), Ok(DType::Binary));
    assert_eq!(parse_dtype("datetime64[ns]"), Ok(DType::TimestampNs));
    assert_eq!(parse_dtype("timestamp_ns"), Ok(DType::TimestampNs));
    assert_eq!(dtype_to_string(&DType::TimestampNs), "timestamp_nanoseconds");
}

#[test]
fn case_and_surroundings_do_not_matter() {
    assert_eq!(parse_dtype("  Float32\n"), Ok(DType::Float32));
    assert_eq!(parse_dtype("\u{2003}LIST[Int8]"), Ok(list(DType::Int8)));
    assert_eq!(
        parse_dtype("fixed_size_list[ float32 , +3 ]"),
        Ok(DType::FixedSizeList {
            child: Box::new(DType::Float32),
            size: 3
        })
    );
    // The element type of a list stands without surroundings.
    assert!(parse_dtype("list[ int8]").is_err());
}

#[test]
fn unknown_types_are_refused() {
    for text in [
        "",
        "float",
        "list[]",
        "list[int8",
        "fixed_size_list[int8]",
        "fixed_size_list[int8,-1]",
        "fixed_size_list[int8,4294967296]",
        "int 8",
    ] {
        assert!(parse_dtype(text).is_err(), "{text}");
    }
    assert_eq!(
        parse_dtype(" f\"8"),
        Err("unknown dtype string: \" f\\\"8\"".to_string())
    );
}

#[test]
fn codecs_read_back() {
    for codec in [Codec::Zstd, Codec::Lz4, Codec::Uncompressed] {
        assert_eq!(parse_codec(codec_name(codec)), Ok(codec));
    }
    assert_eq!(parse_codec("UNCOMPRESSED"), Ok(Codec::Uncompressed));
    assert_eq!(
        parse_codec("GZip"),
        Err("unknown codec: \"gzip\" (expected 'zstd', 'lz4', or 'none')".to_string())
    );
}

#[test]
fn other_options_are_named_too() {
    assert_eq!(parse_meta_format("MP"), Ok(MetaFormat::MsgPack));
    assert_eq!(parse_meta_format("json"), Ok(MetaFormat::Json));
    assert_eq!(
        parse_meta_format("xml"),
        Err("unknown meta_format: \"xml\" (expected 'json' or 'msgpack')".to_string())
    );
    assert_eq!(
        parse_type_mismatch_policy("Strict"),
        Ok(TypeMismatchPolicy::Error)
    );
    assert_eq!(
        parse_type_mismatch_policy("warning"),
        Ok(TypeMismatchPolicy::Warn)
    );
    assert!(parse_type_mismatch_policy("ignore").is_err());
    assert_eq!(parse_attribute_dtype("U8"), Ok(DType::UInt8));
    assert_eq!(
        parse_attribute_dtype("list[u8]"),
        Err("unknown attribute dtype: \"list[u8]\"".to_string())
    );
}

#[test]
fn words_are_taken_apart() {
    assert_eq!(trim("\t a b \u{3000}"), "a b");
    assert_eq!(trim(" \n"), "");
    assert_eq!(strip_prefix_suffix("list[x]", "list[", "]"), Some("x"));
    assert_eq!(strip_prefix_suffix("list[", "list[", "]"), None);
    assert_eq!(strip_prefix_suffix("[]", "[", "]"), Some(""));
    assert_eq!(split_at_last_comma("a,b,c"), Some(("a,b", "c")));
    assert_eq!(split_at_last_comma("abc"), None);
    assert_eq!(parse_number("+42"), Some(42));
    assert_eq!(parse_number("0042"), Some(42));
    assert_eq!(parse_number("+"), None);
    assert_eq!(parse_number("4294967295"), Some(u32::MAX));
}
