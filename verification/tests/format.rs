use atlas::codec::{pack_footer, unpack_footer};
use atlas::config::Codec;
use atlas::error::{Error, Result};
use atlas::format::footer::{dataset_table, CollectionFooter, VariableEntry};
use atlas::format::mask::{decode, encode};
use atlas::format::paths::child;
use atlas::format::pool::{InternedSchema, Interner};
use atlas::format::segment::{segment_path, stats_path, ByteRange, Request, SegmentStore};
use atlas::format::{
    check_header, decode_trailer, encode_header, encode_trailer, FORMAT_VERSION, SEGMENT_FORMAT,
    TRAILER_SIZE,
};
use atlas::notation::dtype::{dtype_to_string, parse_dtype};
use atlas::schema::attr::Attr;
use atlas::schema::dtype::DType;
use atlas::table::Table;
use std::collections::BTreeSet;

fn set(items: &[u32]) -> BTreeSet<u32> {
    items.iter().copied().collect()
}

#[test]
fn mask_roundtrips() {
    let m = set(&[0, 3, 7]);
    assert_eq!(decode(&encode(&m), 8).unwrap(), m);
}

#[test]
fn ordinals_are_written_in_order() {
    // The set is ordered, so insertion order cannot leak into the file.
    let a = encode(&set(&[7, 0, 3]));
    let b = encode(&set(&[0, 3, 7]));
    assert_eq!(a, b);
}

#[test]
fn empty_mask_roundtrips() {
    assert!(decode(&encode(&set(&[])), 4).unwrap().is_empty());
}

#[test]
fn empty_file_means_nothing_deleted() {
    assert!(decode(&[], 4).unwrap().is_empty());
}

#[test]
fn ordinals_past_the_end_are_ignored() {
    let m = set(&[0, 99]);
    assert_eq!(decode(&encode(&m), 4).unwrap(), set(&[0]));
}

#[test]
fn a_truncated_body_keeps_what_is_there() {
    let mut bytes = encode(&set(&[1, 2, 3]));
    bytes.truncate(bytes.len() - 4);
    assert_eq!(decode(&bytes, 8).unwrap(), set(&[1, 2]));
}

#[test]
fn foreign_file_is_an_error() {
    assert!(matches!(
        decode(b"not a mask at all", 4),
        Err(Error::CorruptMask(_))
    ));
}

#[test]
fn unknown_version_is_an_error() {
    let mut bytes = encode(&set(&[1]));
    bytes[4..8].copy_from_slice(&2u32.to_le_bytes());
    assert!(matches!(decode(&bytes, 4), Err(Error::CorruptMask(_))));
}

#[test]
fn a_mask_has_a_header_and_four_bytes_per_ordinal() {
    let bytes = encode(&set(&[5]));
    assert_eq!(&bytes[..4], b"ATLM");
    assert_eq!(&bytes[bytes.len() - 4..], &5u32.to_le_bytes());
}

#[test]
fn header_roundtrip() {
    let h = encode_header();
    assert_eq!(&h[..4], b"ATLS");
    assert!(check_header(&h).is_ok());
}

#[test]
fn trailer_roundtrip() {
    let t = encode_trailer(1234);
    assert_eq!(t.len(), TRAILER_SIZE as usize);
    assert_eq!(&t[12..], b"ATLS");
    assert_eq!(decode_trailer(&t).unwrap(), 1234);
}

#[test]
fn trailer_is_found_at_the_end_of_a_larger_tail() {
    let mut buf = vec![0xAB; 500];
    buf.extend_from_slice(&encode_trailer(7));
    assert_eq!(decode_trailer(&buf).unwrap(), 7);
}

#[test]
fn foreign_file_is_rejected_on_magic() {
    let buf = vec![0u8; 64];
    assert!(matches!(
        decode_trailer(&buf),
        Err(Error::NotAnAtlasCollection { .. })
    ));
    assert!(matches!(
        check_header(b"PK\x03\x04....."),
        Err(Error::NotAnAtlasCollection { .. })
    ));
}

#[test]
fn truncated_file_is_rejected() {
    assert!(matches!(
        decode_trailer(&[0u8; 4]),
        Err(Error::NotAnAtlasCollection { .. })
    ));
    assert!(matches!(
        check_header(b"AT"),
        Err(Error::NotAnAtlasCollection { .. })
    ));
}

#[test]
fn wrong_version_is_reported_as_unsupported() {
    let mut t = encode_trailer(0);
    t[8..12].copy_from_slice(&99u32.to_le_bytes());
    assert!(matches!(
        decode_trailer(&t),
        Err(Error::UnsupportedVersion {
            found: 99,
            expected: 1
        })
    ));

    let mut h = encode_header();
    h[4..8].copy_from_slice(&99u32.to_le_bytes());
    assert!(matches!(
        check_header(&h),
        Err(Error::UnsupportedVersion { found: 99, .. })
    ));
}

type Declarations = (
    Table<DType>,
    Vec<(String, Attr)>,
    Vec<(u32, Vec<(String, Attr)>)>,
);

// One array, one dataset attribute, one array attribute.
fn declarations(dtype: DType) -> Declarations {
    let mut arrays = Table::new();
    arrays.insert("temperature".to_string(), dtype);
    let attrs = vec![("month".to_string(), Attr::Int64(1))];
    let array_attrs = vec![(
        0u32,
        vec![("units".to_string(), Attr::String("K".to_string()))],
    )];
    (arrays, attrs, array_attrs)
}

// An interner holding one schema over `dtype`.
fn one_schema(dtype: DType) -> Interner {
    let mut interner = Interner::new();
    let (arrays, attrs, array_attrs) = declarations(dtype);
    assert_eq!(interner.intern_schema(&arrays, &attrs, &array_attrs), 0);
    interner
}

// A footer whose pools come from one interner, so every index resolves. Each
// name in `variables` gets a segment of 128 bytes.
fn footer_with(
    datasets: Vec<(&str, u32)>,
    interner: Interner,
    variables: &[&str],
) -> CollectionFooter {
    let (string_pool, dtype_pool, schema_pool) = interner.into_pools();
    let variables = variables
        .iter()
        .enumerate()
        .map(|(i, name)| VariableEntry {
            name: string_pool.iter().position(|s| s == name).unwrap() as u32,
            seg_offset: 8 + (i as u64) * 160,
            seg_len: 128,
            stats_offset: 8 + (i as u64) * 160 + 128,
            stats_len: 32,
        })
        .collect();
    let mut table = Table::new();
    for (name, schema) in datasets {
        table.insert(name.to_string(), schema);
    }
    CollectionFooter {
        version: FORMAT_VERSION,
        segment_format: SEGMENT_FORMAT,
        codec: Codec::Zstd,
        created_unix_ms: 1_700_000_000_000,
        string_pool,
        dtype_pool,
        schema_pool,
        variables,
        datasets: table,
    }
}

type WireSchema = (Vec<(u32, u32)>, Vec<(u32, u32)>, Vec<(u32, Vec<(u32, u32)>)>);
type WireFooter = (
    u32,
    u32,
    i64,
    Vec<String>,
    Vec<String>,
    Vec<WireSchema>,
    Vec<(u32, u64, u64, u64, u64)>,
    Vec<(String, u32)>,
);

fn to_wire(f: &CollectionFooter) -> WireFooter {
    (
        f.version,
        f.segment_format,
        f.created_unix_ms,
        f.string_pool.clone(),
        f.dtype_pool.iter().map(dtype_to_string).collect(),
        f.schema_pool
            .iter()
            .map(|s| (s.arrays.clone(), s.attrs.clone(), s.array_attrs.clone()))
            .collect(),
        f.variables
            .iter()
            .map(|v| (v.name, v.seg_offset, v.seg_len, v.stats_offset, v.stats_len))
            .collect(),
        (0..f.datasets.len())
            .map(|i| (f.datasets.name_at(i).to_string(), *f.datasets.value_at(i)))
            .collect(),
    )
}

fn encode_wire(wire: &WireFooter) -> Vec<u8> {
    pack_footer(&rmp_serde::to_vec(wire).unwrap()).unwrap()
}

fn encode_footer(f: &CollectionFooter) -> Vec<u8> {
    encode_wire(&to_wire(f))
}

fn decode_footer(bytes: &[u8]) -> Result<CollectionFooter> {
    let raw = unpack_footer(bytes)?;
    let wire: WireFooter = rmp_serde::from_slice(&raw).unwrap();
    let footer = CollectionFooter {
        version: wire.0,
        segment_format: wire.1,
        codec: Codec::Zstd,
        created_unix_ms: wire.2,
        string_pool: wire.3,
        dtype_pool: wire.4.iter().map(|s| parse_dtype(s).unwrap()).collect(),
        schema_pool: wire
            .5
            .into_iter()
            .map(|(arrays, attrs, array_attrs)| InternedSchema {
                arrays,
                attrs,
                array_attrs,
            })
            .collect(),
        variables: wire
            .6
            .into_iter()
            .map(
                |(name, seg_offset, seg_len, stats_offset, stats_len)| VariableEntry {
                    name,
                    seg_offset,
                    seg_len,
                    stats_offset,
                    stats_len,
                },
            )
            .collect(),
        datasets: dataset_table(&wire.7)?,
    };
    footer.validate()?;
    Ok(footer)
}

fn assert_roundtrips(f: &CollectionFooter) {
    let bytes = encode_footer(f);
    assert_eq!(to_wire(&decode_footer(&bytes).unwrap()), to_wire(f));
}

#[test]
fn footer_roundtrips_through_msgpack_and_zstd() {
    let f = footer_with(
        vec![("a", 0), ("b", 0)],
        one_schema(DType::Float32),
        &["temperature"],
    );
    assert_roundtrips(&f);
    // Packing changes the bytes.
    let raw = rmp_serde::to_vec(&to_wire(&f)).unwrap();
    assert_ne!(encode_footer(&f), raw);
}

#[test]
fn identical_declarations_intern_to_one_pool_entry() {
    let mut interner = Interner::new();
    let (arrays, attrs, array_attrs) = declarations(DType::Float32);
    let a = interner.intern_schema(&arrays, &attrs, &array_attrs);
    let b = interner.intern_schema(&arrays, &attrs, &array_attrs);
    let (other, _, _) = declarations(DType::Int64);
    let c = interner.intern_schema(&other, &attrs, &array_attrs);
    assert_eq!(a, b);
    assert_ne!(a, c);
    let (_, _, schemas) = interner.into_pools();
    assert_eq!(schemas.len(), 2);
}

#[test]
fn an_interned_schema_holds_only_names_and_types() {
    let (_, _, schemas) = one_schema(DType::Float32).into_pools();
    let schema = &schemas[0];
    // Names and dtypes, as pool indices. Nothing else fits in the type.
    assert_eq!(schema.arrays.len(), 1);
    assert_eq!(schema.attrs.len(), 1);
    assert_eq!(schema.array_attrs.len(), 1);
    assert_eq!(schema.array_attrs[0].0, 0);
}

#[test]
fn array_names_and_attribute_keys_share_one_pool() {
    let (strings, dtypes, _) = one_schema(DType::Float32).into_pools();
    // temperature, month, units. One entry each, in the order interned.
    assert_eq!(
        strings,
        vec![
            "temperature".to_string(),
            "month".to_string(),
            "units".to_string()
        ]
    );
    assert_eq!(dtypes, vec![DType::Float32, DType::Int64, DType::String]);
}

#[test]
fn another_attribute_key_makes_another_schema() {
    let mut interner = Interner::new();
    let (arrays, attrs, array_attrs) = declarations(DType::Float32);
    let a = interner.intern_schema(&arrays, &attrs, &array_attrs);
    let more = vec![
        ("month".to_string(), Attr::Int64(1)),
        ("source".to_string(), Attr::String("buoy".to_string())),
    ];
    let b = interner.intern_schema(&arrays, &more, &array_attrs);
    assert_ne!(a, b);
}

#[test]
fn the_schema_declares_the_type_of_every_attribute() {
    let f = footer_with(vec![("a", 0)], one_schema(DType::Float32), &["temperature"]);
    let schema = &f.schema_pool[0];
    assert_eq!(schema.attrs.len(), 1);
    assert_eq!(f.string(schema.attrs[0].0), Some("month"));
    assert_eq!(f.dtype(schema.attrs[0].1), Some(&DType::Int64));

    let (position, keys) = &schema.array_attrs[0];
    assert_eq!(*position, 0);
    assert_eq!(f.string(keys[0].0), Some("units"));
    assert_eq!(f.dtype(keys[0].1), Some(&DType::String));
}

#[test]
fn positions_answer_the_pool_not_the_datasets() {
    let mut interner = Interner::new();
    let (mut arrays, attrs, array_attrs) = declarations(DType::Float32);
    interner.intern_schema(&arrays, &attrs, &array_attrs);
    arrays.insert("salinity".to_string(), DType::Float32);
    interner.intern_schema(&arrays, &attrs, &array_attrs);
    let f = footer_with(
        vec![("a", 0), ("b", 1)],
        interner,
        &["temperature", "salinity"],
    );

    // One entry per pool schema, whatever the dataset count.
    assert_eq!(
        f.array_positions("temperature"),
        Some(vec![Some(0), Some(0)])
    );
    assert_eq!(f.array_positions("salinity"), Some(vec![None, Some(1)]));
    assert_eq!(f.array_positions("missing"), None);

    // The type of `month` in each schema, as a dtype pool index.
    let months = f.attr_dtypes("month").unwrap();
    assert_eq!(months.len(), f.schema_pool.len());
    for dtype in months {
        assert_eq!(f.dtype(dtype.unwrap()), Some(&DType::Int64));
    }
    assert_eq!(f.attr_dtypes("missing"), None);
}

#[test]
fn a_variable_records_its_statistics_sidecar() {
    let f = footer_with(vec![("a", 0)], one_schema(DType::Float32), &["temperature"]);
    let v = &f.variables[0];
    assert_eq!(v.seg_offset, 8);
    assert_eq!(v.seg_len, 128);
    assert_eq!(v.stats_offset, 136);
    assert_eq!(v.stats_len, 32);
    assert_roundtrips(&f);
}

#[test]
fn a_dataset_is_one_index_into_the_schema_pool() {
    let f = footer_with(vec![("a", 0)], one_schema(DType::Float32), &["temperature"]);
    assert_eq!(f.datasets.get("a"), Some(&0));
    assert_eq!(std::mem::size_of_val(f.datasets.get("a").unwrap()), 4);
}

#[test]
fn a_variable_resolves_to_its_segment() {
    let f = footer_with(vec![("a", 0)], one_schema(DType::Float32), &["temperature"]);
    let id = f.string_id("temperature").unwrap();
    assert_eq!(f.variable_index(id), Some(0));
    assert_eq!(f.variables[0].seg_len, 128);
}

// Encodes `f`, decodes it, and returns the message of the expected corruption
// error.
fn corruption(f: CollectionFooter) -> String {
    let err = decode_footer(&encode_footer(&f)).unwrap_err();
    assert!(matches!(err, Error::CorruptCollection(_)));
    err.message()
}

#[test]
fn a_dangling_schema_index_is_corruption() {
    let f = footer_with(vec![("a", 3)], one_schema(DType::Float32), &["temperature"]);
    assert!(corruption(f).contains("references schema"));
}

#[test]
fn a_dangling_array_name_index_is_corruption() {
    let mut f = footer_with(vec![("a", 0)], one_schema(DType::Float32), &["temperature"]);
    f.schema_pool[0].arrays[0].0 = 9;
    assert!(corruption(f).contains("names an array"));
}

#[test]
fn a_dangling_dtype_index_is_corruption() {
    let mut f = footer_with(vec![("a", 0)], one_schema(DType::Float32), &["temperature"]);
    f.schema_pool[0].arrays[0].1 = 9;
    assert!(corruption(f).contains("references dtype"));
}

#[test]
fn an_array_with_no_segment_is_corruption() {
    let mut f = footer_with(vec![("a", 0)], one_schema(DType::Float32), &["temperature"]);
    f.variables.clear();
    assert!(corruption(f).contains("no segment holds it"));
}

#[test]
fn a_repeated_variable_segment_is_corruption() {
    let mut f = footer_with(vec![("a", 0)], one_schema(DType::Float32), &["temperature"]);
    let repeat = f.variables[0];
    f.variables.push(repeat);
    assert!(corruption(f).contains("two segments"));
}

#[test]
fn an_empty_variable_segment_is_corruption() {
    let mut f = footer_with(vec![("a", 0)], one_schema(DType::Float32), &["temperature"]);
    f.variables[0].seg_len = 0;
    assert!(corruption(f).contains("empty segment"));
}

#[test]
fn an_attribute_of_an_array_that_is_not_declared_is_corruption() {
    let mut f = footer_with(vec![("a", 0)], one_schema(DType::Float32), &["temperature"]);
    f.schema_pool[0].array_attrs[0].0 = 4;
    assert!(corruption(f).contains("annotates array 4 but declares 1"));
}

#[test]
fn a_foreign_footer_version_is_unsupported() {
    let mut f = footer_with(vec![], Interner::new(), &[]);
    f.version = 7;
    assert!(matches!(
        f.validate(),
        Err(Error::UnsupportedVersion {
            found: 7,
            expected: 1
        })
    ));
}

#[test]
fn a_repeated_dataset_name_is_corruption() {
    // Two datasets of one name would collapse into one on decode, and shift
    // every ordinal after them while the mask still named the old ones.
    let valid = footer_with(vec![("a", 0)], one_schema(DType::Float32), &["temperature"]);
    let mut raw = to_wire(&valid);
    raw.7 = vec![("a".to_string(), 0), ("a".to_string(), 0)];
    let err = decode_footer(&encode_wire(&raw)).unwrap_err();
    assert!(err.message().contains("appears twice"));
}

#[test]
fn a_dataset_position_is_its_ordinal() {
    let f = footer_with(
        vec![("first", 0), ("second", 0)],
        one_schema(DType::Float32),
        &["temperature"],
    );
    // The map carries the ordinal, so no entry has to repeat it.
    assert_eq!(f.datasets.position("first"), Some(0));
    assert_eq!(f.datasets.position("second"), Some(1));
    assert_eq!(f.datasets.position("missing"), None);
    assert_eq!(f.datasets.name_at(1), "second");
    // The order survives the wire.
    let back = decode_footer(&encode_footer(&f)).unwrap();
    assert_eq!(back.datasets.name_at(0), "first");
    assert_eq!(back.datasets.name_at(1), "second");
    assert_eq!(back.datasets.len(), 2);
}

#[test]
fn distinct_dataset_names_pass() {
    let f = footer_with(
        vec![("a", 0), ("b", 0)],
        one_schema(DType::Float32),
        &["temperature"],
    );
    assert_roundtrips(&f);
}

#[test]
fn garbage_bytes_are_corruption_not_a_panic() {
    assert!(matches!(
        decode_footer(&[0xff; 32]),
        Err(Error::CorruptCollection(_))
    ));
}

#[test]
fn empty_collection_roundtrips() {
    let f = footer_with(vec![], Interner::new(), &[]);
    assert_roundtrips(&f);
}

#[test]
fn interned_strings_keep_their_positions() {
    let mut interner = Interner::new();
    assert_eq!(interner.intern_string("a"), 0);
    assert_eq!(interner.intern_string("b"), 1);
    assert_eq!(interner.intern_string("a"), 0);
    assert_eq!(interner.intern_dtype(&DType::Bool), 0);
    assert_eq!(interner.intern_dtype(&DType::Bool), 0);
    assert_eq!(interner.string_count(), 2);
    assert_eq!(interner.dtype_count(), 1);
    assert_eq!(interner.schema_count(), 0);
}

// The bytes a request reads out of a container whose bytes are `0..200`.
fn served(store: &SegmentStore, range: Option<ByteRange>) -> Option<Vec<u8>> {
    match store.request(store.path(), range) {
        Request::Read { absolute, .. } => {
            Some((absolute.0..absolute.1).map(|i| i as u8).collect())
        }
        _ => None,
    }
}

fn fixture() -> SegmentStore {
    SegmentStore::new(0, 50, 100, 150, 20)
}

#[test]
fn head_reports_the_segment_length() {
    let s = fixture();
    assert_eq!(s.part(s.path()).unwrap().len, 100);
}

#[test]
fn a_full_read_returns_only_the_segment() {
    let got = served(&fixture(), None).unwrap();
    assert_eq!(got.len(), 100);
    assert_eq!(got[0], 50);
    assert_eq!(got[99], 149);
}

#[test]
fn bounded_ranges_are_translated() {
    let s = fixture();
    assert_eq!(
        served(&s, Some(ByteRange::Bounded { start: 0, end: 4 })).unwrap(),
        [50, 51, 52, 53]
    );
    assert_eq!(
        served(
            &s,
            Some(ByteRange::Bounded {
                start: 96,
                end: 100
            })
        )
        .unwrap(),
        [146, 147, 148, 149]
    );
}

#[test]
fn suffix_and_offset_ranges_are_translated() {
    let s = fixture();
    // The trailer read that opens every array-format file.
    assert_eq!(
        served(&s, Some(ByteRange::Suffix(4))).unwrap(),
        [146, 147, 148, 149]
    );
    assert_eq!(
        served(&s, Some(ByteRange::Offset(98))).unwrap(),
        [148, 149]
    );
}

#[test]
fn an_end_past_the_segment_is_clamped_not_leaked() {
    // Without the clamp, this read reaches into the next segment.
    let got = served(
        &fixture(),
        Some(ByteRange::Bounded {
            start: 98,
            end: 500,
        }),
    );
    assert_eq!(got.unwrap(), [148, 149]);
}

#[test]
fn a_start_past_the_segment_is_an_error() {
    let s = fixture();
    assert!(served(
        &s,
        Some(ByteRange::Bounded {
            start: 100,
            end: 104
        })
    )
    .is_none());
}

#[test]
fn the_statistics_sidecar_is_a_second_object() {
    let s = fixture();
    assert_eq!(s.part("seg0.stats").unwrap().len, 20);
}

#[test]
fn a_segment_with_no_sidecar_reports_none() {
    let s = SegmentStore::new(0, 50, 100, 0, 0);
    assert!(s.part("seg0.stats").is_none());
}

#[test]
fn any_other_path_is_not_found() {
    assert!(fixture().part("seg9.af").is_none());
}

#[test]
fn segments_are_named_by_their_variable() {
    assert_eq!(segment_path(12), "seg12.af");
    assert_eq!(stats_path(12), "seg12.stats");
}

#[test]
fn a_request_in_the_segment_keeps_its_own_coordinates() {
    let s = fixture();
    match s.request("seg0.stats", Some(ByteRange::Suffix(5))) {
        Request::Read {
            size,
            local,
            absolute,
        } => {
            assert_eq!(size, 20);
            assert_eq!(local, (15, 20));
            assert_eq!(absolute, (165, 170));
        }
        other => panic!("{other:?}"),
    }
    assert!(matches!(s.request("other", None), Request::NotFound));
    match s.request("seg0.af", Some(ByteRange::Offset(100))) {
        Request::EmptyRange(text) => assert_eq!(
            text,
            "requested range 100..100 is empty or starts past the 100-byte object"
        ),
        other => panic!("{other:?}"),
    }
}

#[test]
fn objects_lie_under_the_prefix() {
    assert_eq!(child("", "data.atlas"), "data.atlas");
    assert_eq!(child("a/b", "data.atlas"), "a/b/data.atlas");
    // A part of a path is percent-encoded, and a whole path is parsed.
    assert_eq!(child("a", "x/y"), "a/x%2Fy");
    assert_eq!(child("", "/x//y/"), "x/y");
}

#[test]
fn names_tell_variables_apart() {
    assert_eq!(segment_path(1), "seg1.af");
    assert_eq!(segment_path(11), "seg11.af");
    assert_eq!(stats_path(11), "seg11.stats");
    let mut names: Vec<String> = Vec::new();
    for variable in 0..120 {
        names.push(segment_path(variable));
        names.push(stats_path(variable));
    }
    names.sort();
    names.dedup();
    assert_eq!(names.len(), 240);
}

#[test]
fn a_name_of_the_other_kind_has_no_positions() {
    let mut interner = Interner::new();
    let (arrays, attrs, array_attrs) = declarations(DType::Float32);
    interner.intern_schema(&arrays, &attrs, &array_attrs);
    let f = footer_with(vec![("a", 0)], interner, &["temperature"]);
    // Both names stand in the one pool of strings.
    assert!(f.string_pool.iter().any(|s| s == "temperature"));
    assert!(f.string_pool.iter().any(|s| s == "month"));
    assert_eq!(f.array_positions("month"), None);
    assert_eq!(f.attr_dtypes("temperature"), None);
    assert_eq!(f.array_positions("temperature"), Some(vec![Some(0)]));
    assert!(f.attr_dtypes("month").is_some());
}

#[test]
fn a_packed_footer_is_always_had() {
    for encoded in [&b""[..], &b"footer"[..], &[0u8; 5_000][..]] {
        let packed = pack_footer(encoded).unwrap();
        assert_eq!(unpack_footer(&packed).unwrap(), encoded);
    }
}

#[test]
fn a_schema_is_found_again_whatever_came_in_between() {
    let mut interner = Interner::new();
    let (arrays, attrs, array_attrs) = declarations(DType::Float32);
    let first = interner.intern_schema(&arrays, &attrs, &array_attrs);
    assert_eq!(first, 0);
    interner.intern_string("between");
    interner.intern_dtype(&DType::Int8);

    // Another type, another order, and another key are other schemas. Each
    // gets the length of the pool.
    let (wider, _, _) = declarations(DType::Float64);
    assert_eq!(interner.intern_schema(&wider, &attrs, &array_attrs), 1);
    let two = |names: [&str; 2]| {
        let mut table = Table::new();
        for name in names {
            table.insert(name.to_string(), DType::Int8);
        }
        table
    };
    assert_eq!(interner.intern_schema(&two(["x", "y"]), &vec![], &vec![]), 2);
    assert_eq!(interner.intern_schema(&two(["y", "x"]), &vec![], &vec![]), 3);

    // The value of an attribute does not matter, only its type.
    let (strings, dtypes) = (interner.string_count(), interner.dtype_count());
    let other = vec![("month".to_string(), Attr::Int64(99))];
    assert_eq!(interner.intern_schema(&arrays, &other, &array_attrs), first);
    assert_eq!(interner.schema_count(), 4);
    assert_eq!(
        (interner.string_count(), interner.dtype_count()),
        (strings, dtypes)
    );
}
