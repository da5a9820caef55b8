use atlas::config::Codec;
use atlas::error::Error;
use atlas::format::footer::{CollectionFooter, VariableEntry};
use atlas::format::pool::Interner;
use atlas::format::FORMAT_VERSION;
use atlas::names::validate_name;
use atlas::reader::view::DatasetView;
use atlas::reader::Atlas;
use atlas::schema::array::FillValueS;
use atlas::schema::attr::Attr;
use atlas::schema::collection::CollectionSchema;
use atlas::schema::dtype::{widen_dtype, DType};
use atlas::schema::layout::{ArrayLayout, StoredLayout};
use atlas::schema::view::SchemaView;
use atlas::table::Table;
use atlas::timestamp::{rfc3339_to_timestamp_ns, timestamp_ns_to_rfc3339, StoreAttr};
use atlas::writer::{AtlasWriter, DatasetWriter};

#[test]
fn valid_names_pass() {
    for name in ["temperature", "my-array", "x1", "lat.lon", "a"] {
        assert!(validate_name(name).is_ok(), "expected '{name}' to be valid");
    }
}

#[test]
fn empty_name_rejected() {
    assert!(matches!(validate_name(""), Err(Error::InvalidName(_))));
}

#[test]
fn leading_underscore_rejected() {
    assert!(matches!(
        validate_name("_hidden"),
        Err(Error::InvalidName(_))
    ));
    assert!(matches!(validate_name("_"), Err(Error::InvalidName(_))));
}

#[test]
fn slash_in_name_rejected() {
    assert!(matches!(validate_name("a/b"), Err(Error::InvalidName(_))));
    assert!(matches!(validate_name("/abs"), Err(Error::InvalidName(_))));
}

#[test]
fn dotdot_rejected() {
    assert!(matches!(validate_name(".."), Err(Error::InvalidName(_))));
}

#[test]
fn single_dot_rejected() {
    assert!(matches!(validate_name("."), Err(Error::InvalidName(_))));
}

fn assert_send<T: Send>() {}
fn assert_sync<T: Sync>() {}

#[test]
fn atlas_is_send_and_sync() {
    assert_send::<Atlas>();
    assert_sync::<Atlas>();
}

#[test]
fn view_is_send_and_sync() {
    assert_send::<DatasetView>();
    assert_sync::<DatasetView>();
}

#[test]
fn writers_are_send_and_sync() {
    assert_send::<AtlasWriter>();
    assert_sync::<AtlasWriter>();
    assert_send::<DatasetWriter>();
    assert_sync::<DatasetWriter>();
}

#[test]
fn scalars_and_lists_report_their_dtype() {
    assert_eq!(Attr::Int32(1).dtype(), DType::Int32);
    assert_eq!(Attr::Int64(0).dtype(), DType::Int64);
    assert_eq!(
        Attr::StringList(vec![]).dtype(),
        DType::List {
            child: Box::new(DType::String)
        }
    );
}

// Interns one dataset that declares `array` at `dtype`, with one dataset-level
// attribute and one array attribute.
fn intern(interner: &mut Interner, array: &str, dtype: DType, attr: Attr) -> u32 {
    let mut arrays = Table::new();
    arrays.insert(array.to_string(), dtype);
    let attrs = vec![("month".to_string(), Attr::Int64(1))];
    let array_attrs = vec![(0u32, vec![("units".to_string(), attr)])];
    interner.intern_schema(&arrays, &attrs, &array_attrs)
}

// A footer over the interned schemas, with a segment per array name.
fn footer(interner: Interner, schemas: &[u32], variables: &[&str]) -> CollectionFooter {
    let (string_pool, dtype_pool, schema_pool) = interner.into_pools();
    let variables = variables
        .iter()
        .map(|name| VariableEntry {
            name: string_pool.iter().position(|s| s == name).unwrap() as u32,
            seg_offset: 8,
            seg_len: 128,
            stats_offset: 0,
            stats_len: 0,
        })
        .collect();
    let mut datasets = Table::new();
    for (i, s) in schemas.iter().enumerate() {
        datasets.insert(format!("ds{i}"), *s);
    }
    CollectionFooter {
        version: FORMAT_VERSION,
        segment_format: 5,
        codec: Codec::Zstd,
        created_unix_ms: 0,
        string_pool,
        dtype_pool,
        schema_pool,
        variables,
        datasets,
    }
}

fn names_of<V>(table: &Table<V>) -> Vec<String> {
    (0..table.len())
        .map(|i| table.name_at(i).to_string())
        .collect()
}

#[test]
fn one_convention_gives_one_type_per_name() {
    let mut interner = Interner::new();
    let k = || Attr::String("K".to_string());
    let a = intern(&mut interner, "temperature", DType::Float32, k());
    let b = intern(&mut interner, "temperature", DType::Float32, k());
    assert_eq!(a, b);
    let f = footer(interner, &[a, b], &["temperature"]);

    let schema = f.collection_schema();
    assert_eq!(schema.arrays.len(), 1);
    assert_eq!(schema.array_dtypes("temperature"), [DType::Float32]);
    assert_eq!(schema.attribute_dtypes("month"), [DType::Int64]);
    assert_eq!(
        schema.array_attribute_dtypes("temperature", "units"),
        [DType::String]
    );
}

#[test]
fn datasets_that_disagree_give_both_types() {
    let mut interner = Interner::new();
    let a = intern(
        &mut interner,
        "temperature",
        DType::Float32,
        Attr::String("K".to_string()),
    );
    let b = intern(&mut interner, "temperature", DType::Float64, Attr::Int64(1));
    let f = footer(interner, &[a, b], &["temperature"]);

    let schema = f.collection_schema();
    // One entry per name, holding every type that name takes.
    assert_eq!(schema.arrays.len(), 1);
    assert_eq!(
        schema.array_dtypes("temperature"),
        [DType::Float32, DType::Float64]
    );
    assert_eq!(
        schema.array_attribute_dtypes("temperature", "units"),
        [DType::String, DType::Int64]
    );
}

#[test]
fn every_array_of_the_collection_appears_once() {
    let mut interner = Interner::new();
    let a = intern(&mut interner, "temperature", DType::Float32, Attr::Int64(1));
    let b = intern(&mut interner, "salinity", DType::Float64, Attr::Int64(1));
    let f = footer(interner, &[a, b], &["temperature", "salinity"]);

    let schema = f.collection_schema();
    let mut names = names_of(&schema.arrays);
    names.sort_unstable();
    assert_eq!(names, ["salinity", "temperature"]);
    assert_eq!(schema.array_dtypes("salinity"), [DType::Float64]);
    // The two share the attribute keys, so each map holds one key.
    assert_eq!(schema.attributes.len(), 1);
    assert_eq!(schema.array_attributes.len(), 2);
}

#[test]
fn a_name_the_collection_does_not_hold_is_empty() {
    let f = footer(Interner::new(), &[], &[]);
    let schema: CollectionSchema = f.collection_schema();
    assert!(schema.arrays.is_empty());
    assert!(schema.array_dtypes("missing").is_empty());
    assert!(schema.attribute_dtypes("missing").is_empty());
    assert!(schema.array_attribute_dtypes("missing", "units").is_empty());
}

#[test]
fn a_view_answers_from_the_footer() {
    let mut interner = Interner::new();
    let a = intern(
        &mut interner,
        "temperature",
        DType::Float32,
        Attr::String("K".to_string()),
    );
    let f = footer(interner, &[a], &["temperature"]);
    let view = SchemaView::new(&f, a);
    assert_eq!(view.len(), 1);
    assert_eq!(view.names(), ["temperature"]);
    assert_eq!(view.attribute_names(), ["month"]);
    assert_eq!(view.attribute_dtype("month"), Some(&DType::Int64));
    assert_eq!(view.attribute_dtype("units"), None);
    let meta = view.get("temperature").unwrap();
    assert_eq!(meta.name(), "temperature");
    assert_eq!(meta.dtype(), &DType::Float32);
    assert_eq!(meta.attribute_dtype("units"), Some(&DType::String));
    assert!(view.get("salinity").is_none());
    let owned = view.to_owned_schema();
    assert_eq!(names_of(&owned.arrays), ["temperature"]);
    assert_eq!(owned.attributes.get("month"), Some(&DType::Int64));
}

#[test]
fn timestamp_attr_roundtrips_through_rfc3339_string() {
    let ts = StoreAttr::TimestampNanoseconds(1_700_000_000_000_000_000);
    let stored = ts.clone().into_stored();
    // Stored as an RFC 3339 string in the array file.
    assert_eq!(stored, Attr::String("2023-11-14T22:13:20Z".to_string()));
    // A string that parses as RFC 3339 comes back as a timestamp...
    assert_eq!(StoreAttr::from_stored(stored), ts);
    // ...while a non-timestamp string stays a string.
    assert_eq!(
        StoreAttr::from_stored(Attr::String("not-a-date".to_string())),
        StoreAttr::Plain(Attr::String("not-a-date".to_string()))
    );
}

#[test]
fn every_moment_of_64_bits_reads_back() {
    for nanos in [
        0i64,
        1_700_000_000_123_456_789,
        1_700_000_000_120_000_000,
        -1,
        i64::MAX,
        i64::MIN,
    ] {
        let text = timestamp_ns_to_rfc3339(nanos);
        assert_eq!(rfc3339_to_timestamp_ns(&text), Some(nanos), "{text}");
    }
    assert_eq!(timestamp_ns_to_rfc3339(0), "1970-01-01T00:00:00Z");
    assert_eq!(
        rfc3339_to_timestamp_ns("1970-01-01T01:00:00+01:00"),
        Some(0)
    );
    assert_eq!(rfc3339_to_timestamp_ns("yesterday"), None);
    assert_eq!(rfc3339_to_timestamp_ns("9999-01-01T00:00:00Z"), None);
}

#[test]
fn any_other_string_stays_a_string() {
    let v = StoreAttr::Plain(Attr::String("buoy".to_string()));
    assert_eq!(StoreAttr::from_stored(v.clone().into_stored()), v);
    assert_eq!(v.dtype(), DType::String);
    assert_eq!(
        StoreAttr::TimestampNanoseconds(3).dtype(),
        DType::TimestampNs
    );
}

#[test]
fn numeric_widening() {
    assert_eq!(widen_dtype(&DType::Int8, &DType::Int32), Some(DType::Int32));
    assert_eq!(
        widen_dtype(&DType::UInt8, &DType::UInt16),
        Some(DType::UInt16)
    );
    // Mixed sign promotes to a larger signed type.
    assert_eq!(widen_dtype(&DType::Int8, &DType::UInt8), Some(DType::Int16));
    assert_eq!(
        widen_dtype(&DType::Int32, &DType::UInt32),
        Some(DType::Int64)
    );
    // Float with an integer of 32 bits or more needs f64.
    assert_eq!(
        widen_dtype(&DType::Int32, &DType::Float32),
        Some(DType::Float64)
    );
    assert_eq!(
        widen_dtype(&DType::Int8, &DType::Float32),
        Some(DType::Float32)
    );
    assert_eq!(
        widen_dtype(&DType::Float32, &DType::Float64),
        Some(DType::Float64)
    );
}

#[test]
fn string_timestamp_widening() {
    assert_eq!(
        widen_dtype(&DType::String, &DType::TimestampNs),
        Some(DType::String)
    );
    assert_eq!(
        widen_dtype(&DType::TimestampNs, &DType::String),
        Some(DType::String)
    );
}

#[test]
fn incompatible_types_collide() {
    assert_eq!(widen_dtype(&DType::Int32, &DType::String), None);
    assert_eq!(widen_dtype(&DType::Float64, &DType::Bool), None);
    assert_eq!(widen_dtype(&DType::Binary, &DType::String), None);
}

#[test]
fn list_widening_is_elementwise() {
    let a = DType::List {
        child: Box::new(DType::Int8),
    };
    let b = DType::List {
        child: Box::new(DType::Int32),
    };
    assert_eq!(
        widen_dtype(&a, &b),
        Some(DType::List {
            child: Box::new(DType::Int32)
        })
    );
}

#[test]
fn widening_does_not_depend_on_the_order() {
    let all = [
        DType::Bool,
        DType::Int16,
        DType::UInt32,
        DType::UInt64,
        DType::Float32,
        DType::String,
        DType::TimestampNs,
        DType::Binary,
    ];
    for a in &all {
        assert_eq!(widen_dtype(a, a), Some(a.clone()));
        for b in &all {
            assert_eq!(widen_dtype(a, b), widen_dtype(b, a));
        }
    }
}

#[test]
fn a_layout_gives_what_the_segment_recorded() {
    let layout = ArrayLayout::from_stored(StoredLayout {
        shape: vec![4, 8],
        chunk_shape: vec![2, 4],
        dimension_names: vec!["lat".to_string(), "lon".to_string()],
        fill_value: Some(FillValueS::Int(-1)),
    });
    assert_eq!(layout.shape(), [4, 8]);
    assert_eq!(layout.chunk_shape(), [2, 4]);
    assert_eq!(layout.dimension_names(), ["lat", "lon"]);
    assert_eq!(layout.fill_value(), Some(&FillValueS::Int(-1)));
    assert_eq!(layout.element_count(), 32);
}

#[test]
fn a_view_tells_attribute_types_apart() {
    let mut interner = Interner::new();
    let a = intern(&mut interner, "temperature", DType::Float32, Attr::Int64(1));
    let b = intern(
        &mut interner,
        "temperature",
        DType::Float32,
        Attr::String("K".to_string()),
    );
    let c = intern(&mut interner, "temperature", DType::Float64, Attr::Int64(1));
    let f = footer(interner, &[a, b, c], &["temperature"]);
    let (a, b, c) = (
        SchemaView::new(&f, a),
        SchemaView::new(&f, b),
        SchemaView::new(&f, c),
    );
    assert!(a.same(&a));
    assert!(!a.same(&b), "one key, as an integer and as a string");
    assert!(!a.same(&c), "one array, of two types");
}

#[test]
fn a_view_tells_dataset_attribute_types_apart() {
    let mut interner = Interner::new();
    let arrays = Table::new();
    let a = interner.intern_schema(
        &arrays,
        &vec![("month".to_string(), Attr::Int64(1))],
        &vec![],
    );
    let b = interner.intern_schema(
        &arrays,
        &vec![("month".to_string(), Attr::String("jan".to_string()))],
        &vec![],
    );
    let f = footer(interner, &[a, b], &[]);
    assert!(!SchemaView::new(&f, a).same(&SchemaView::new(&f, b)));
    assert!(SchemaView::new(&f, b).same(&SchemaView::new(&f, b)));
}

#[test]
fn an_array_nobody_annotated_has_no_entry() {
    let mut interner = Interner::new();
    let a = intern(&mut interner, "temperature", DType::Float32, Attr::Int64(1));
    let mut f = footer(interner, &[a], &["temperature"]);
    assert_eq!(f.collection_schema().array_attributes.len(), 1);
    // A list of annotations that holds none.
    f.schema_pool[0].array_attrs = vec![(0, vec![])];
    assert!(f.collection_schema().array_attributes.is_empty());
}
