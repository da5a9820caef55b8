use atlas::config::{Codec, MetaFormat};
use atlas::error::Error;
use atlas::meta::persist::{
    check_store_version, choose_source, detect_variants, from_wire, to_wire,
};
use atlas::meta::schema::{compute_merged, schema_hash, ArraySchema, DatasetSchema};
use atlas::meta::store_meta::{StoreMeta, STORE_FORMAT_VERSION};
use atlas::schema::dtype::{widen_dtype, DType};
use atlas::table::Table;

// The merged type of a key across every live dataset but one, by a walk.
fn merged_by_scan<F>(meta: &StoreMeta, exclude: &str, pick: F) -> Option<DType>
where
    F: Fn(&DatasetSchema) -> Option<DType>,
{
    let mut acc: Option<DType> = None;
    for dataset in meta.live_datasets() {
        if dataset.name == exclude {
            continue;
        }
        if let Some(t) = pick(dataset.schema) {
            acc = Some(match acc {
                None => t,
                Some(a) => widen_dtype(&a, &t).unwrap_or(a),
            });
        }
    }
    acc
}

fn array_of(dtype: DType) -> ArraySchema {
    ArraySchema {
        dtype,
        shape: vec![1],
        chunk_shape: vec![1],
        dimension_names: vec!["i".to_string()],
        codec: Codec::default(),
    }
}

fn keys<V>(table: &Table<V>) -> Vec<String> {
    (0..table.len())
        .map(|i| table.name_at(i).to_string())
        .collect()
}

fn dtypes() -> [DType; 6] {
    [
        DType::Int32,
        DType::Int64,
        DType::Float64,
        DType::UInt8,
        DType::String,
        DType::TimestampNs,
    ]
}

fn conflicted_meta() -> StoreMeta {
    let mut meta = StoreMeta::default();
    for (i, dtype) in dtypes().iter().cycle().take(24).enumerate() {
        let ds = format!("ds{i}");
        meta.record_array(&ds, "x", array_of(dtype.clone()));
        meta.record_global_attr(&ds, "k", dtype.clone());
        meta.record_array_attr(&ds, "x", "units", dtype.clone());
    }
    meta
}

fn check_against_scan(meta: &StoreMeta) {
    let mut names = meta.live_names();
    names.push("absent".to_string());
    for name in &names {
        assert_eq!(
            meta.other_array_dtype(name, "x"),
            merged_by_scan(meta, name, |s| s.arrays().get("x").map(|a| a.dtype.clone())),
            "array dtype mismatch for {name}"
        );
        assert_eq!(
            meta.other_global_attr_dtype(name, "k"),
            merged_by_scan(meta, name, |s| s.global_attrs().get("k").cloned()),
            "global attr mismatch for {name}"
        );
        assert_eq!(
            meta.other_array_attr_dtype(name, "x", "units"),
            merged_by_scan(meta, name, |s| s
                .array_attrs()
                .get("x")
                .and_then(|m| m.get("units"))
                .cloned()),
            "array attr mismatch for {name}"
        );
    }
}

#[test]
fn store_meta_index_matches_full_scan() {
    let mut meta = conflicted_meta();
    assert!(meta.row_slots() > 1, "fixture should hold datasets");
    assert!(
        meta.array_is_conflicted("x"),
        "fixture should exercise the conflicted path"
    );
    check_against_scan(&meta);

    // Deleting must narrow the constraint back, not leave it widened.
    let victims: Vec<String> = meta.live_names().into_iter().take(2).collect();
    for v in victims {
        meta.unrecord_dataset(&v);
        check_against_scan(&meta);
    }

    // Dropping the array from a dataset clears its attribute keys too.
    if let Some(name) = meta.live_names().first().cloned() {
        meta.unrecord_array(&name, "x");
        check_against_scan(&meta);
    }
}

#[test]
fn meta_index_matches_full_scan() {
    let mut meta = conflicted_meta();
    assert!(meta.row_slots() > 1, "fixture should hold datasets");
    assert!(
        meta.array_is_conflicted("x"),
        "fixture should exercise the conflicted path"
    );
    check_against_scan(&meta);
    let victims: Vec<String> = meta.live_names().into_iter().take(2).collect();
    for v in victims {
        meta.unrecord_dataset(&v);
        check_against_scan(&meta);
    }
    if let Some(name) = meta.live_names().first().cloned() {
        meta.unrecord_array(&name, "x");
        check_against_scan(&meta);
    }
}

fn hundred_alike() -> StoreMeta {
    let mut meta = StoreMeta::default();
    for i in 0..100 {
        let ds = format!("ds{i}");
        meta.record_array(&ds, "temp", array_of(DType::Float64));
        meta.record_global_attr(&ds, "title", DType::String);
        meta.record_array_attr(&ds, "temp", "units", DType::String);
        meta.seal_dataset(&ds);
    }
    meta
}

#[test]
fn store_meta_identical_schemas_share_one_allocation() {
    let mut meta = hundred_alike();
    for i in 0..100 {
        assert!(
            meta.shares_schema("ds0", &format!("ds{i}")),
            "all 100 identical schemas should share one allocation"
        );
    }
    assert_eq!(meta.pool_len(), 1);

    // Editing one dataset must not touch its neighbours.
    meta.record_global_attr("ds7", "extra", DType::Int64);
    assert!(!meta.shares_schema("ds7", "ds0"));
    let global = |meta: &StoreMeta, ds: &str| {
        meta.live_schema(ds)
            .unwrap()
            .global_attrs()
            .contains("extra")
    };
    assert!(global(&meta, "ds7"));
    assert!(!global(&meta, "ds0"));

    meta.seal_dataset("ds7");
    assert_eq!(meta.pool_len(), 2);
}

#[test]
fn meta_identical_schemas_share_one_allocation() {
    let mut meta = hundred_alike();
    for i in 0..100 {
        assert!(meta.shares_schema("ds0", &format!("ds{i}")));
    }
    assert_eq!(meta.pool_len(), 1);
    meta.record_global_attr("ds7", "extra", DType::Int64);
    assert!(!meta.shares_schema("ds7", "ds0"));
    assert!(meta
        .live_schema("ds7")
        .unwrap()
        .global_attrs()
        .contains("extra"));
    assert!(!meta
        .live_schema("ds0")
        .unwrap()
        .global_attrs()
        .contains("extra"));
    assert!(meta.shares_schema("ds0", "ds1"));

    // A genuinely different schema gets its own pool entry.
    meta.seal_dataset("ds7");
    assert_eq!(meta.pool_len(), 2);

    // Interning must not change what gets written to disk.
    let wire = to_wire(&meta);
    assert_eq!(wire.schemas.len(), 2);
    assert_eq!(wire.datasets.len(), 100);
    assert_ne!(wire.datasets.get("ds7"), wire.datasets.get("ds0"));
}

fn check_conflicted_exclusion() {
    let mut meta = StoreMeta::default();
    meta.record_global_attr("a", "k", DType::Int64);
    meta.record_global_attr("odd", "k", DType::String);

    assert_eq!(
        meta.other_global_attr_dtype("third", "k"),
        Some(DType::Int64)
    );
    assert_eq!(meta.other_global_attr_dtype("a", "k"), Some(DType::String));
    assert_eq!(meta.other_global_attr_dtype("odd", "k"), Some(DType::Int64));

    for name in ["a", "odd", "third"] {
        assert_eq!(
            meta.other_global_attr_dtype(name, "k"),
            merged_by_scan(&meta, name, |s| s.global_attrs().get("k").cloned()),
            "mismatch for {name}"
        );
    }
}

#[test]
fn store_meta_excluding_first_seen_contributor_of_a_conflicted_key() {
    check_conflicted_exclusion();
}

#[test]
fn meta_excluding_first_seen_contributor_of_a_conflicted_key() {
    check_conflicted_exclusion();
}

fn check_sole_contributor() {
    let mut meta = StoreMeta::default();
    meta.record_global_attr("solo", "k", DType::Int64);
    assert_eq!(meta.other_global_attr_dtype("solo", "k"), None);

    meta.record_global_attr("solo", "k", DType::String);
    assert_eq!(meta.other_global_attr_dtype("solo", "k"), None);
    assert_eq!(
        meta.live_schema("solo").unwrap().global_attrs().get("k"),
        Some(&DType::String)
    );

    assert_eq!(
        meta.other_global_attr_dtype("other", "k"),
        Some(DType::String)
    );
}

#[test]
fn store_meta_sole_contributor_can_retype() {
    check_sole_contributor();
}

#[test]
fn meta_sole_contributor_can_retype() {
    check_sole_contributor();
}

fn schema_with_array(array: &str, dtype: DType) -> DatasetSchema {
    let mut s = DatasetSchema::new();
    s.register_array(
        array,
        ArraySchema {
            dtype,
            shape: vec![1],
            chunk_shape: vec![1],
            dimension_names: vec!["x".to_string()],
            codec: Codec::default(),
        },
    );
    s
}

fn check_numeric_merge() {
    let a = schema_with_array("temp", DType::Int16);
    let b = schema_with_array("temp", DType::Int32);
    let mut c = schema_with_array("temp", DType::Float32);
    c.register_global_attr("region", DType::String);
    let merged = compute_merged(&vec![&a, &b, &c]);
    // A float with an integer of 32 bits or more widens to a double.
    assert_eq!(merged.arrays.get("temp").unwrap().dtype, DType::Float64);
    assert_eq!(merged.global_attributes.get("region"), Some(&DType::String));
}

#[test]
fn schema_merged_schema_widens_numeric_array_dtypes() {
    check_numeric_merge();
}

#[test]
fn meta_merged_schema_widens_numeric_array_dtypes() {
    check_numeric_merge();
}

fn check_text_merge() {
    let mut a = DatasetSchema::new();
    a.register_global_attr("created", DType::TimestampNs);
    let mut b = DatasetSchema::new();
    b.register_global_attr("created", DType::String);
    let merged = compute_merged(&vec![&a, &b]);
    assert_eq!(
        merged.global_attributes.get("created"),
        Some(&DType::String)
    );
}

#[test]
fn schema_merged_schema_widens_string_and_timestamp_attr() {
    check_text_merge();
}

#[test]
fn meta_merged_schema_widens_string_and_timestamp_attr() {
    check_text_merge();
}

#[test]
fn identical_schemas_hash_equal() {
    let a = schema_with_array("temp", DType::Int32);
    let b = schema_with_array("temp", DType::Int32);
    let c = schema_with_array("temp", DType::Float64);
    assert_eq!(schema_hash(&a), schema_hash(&b));
    assert_ne!(schema_hash(&a), schema_hash(&c));
}

fn sample_schema() -> DatasetSchema {
    let mut s = DatasetSchema::new();
    s.register_array(
        "temp",
        ArraySchema {
            dtype: DType::Float32,
            shape: vec![4, 8],
            chunk_shape: vec![2, 4],
            dimension_names: vec!["lat".to_string(), "lon".to_string()],
            codec: Codec::default(),
        },
    );
    s.register_global_attr("month", DType::Int64);
    s.register_global_attr("active", DType::Bool);
    s.register_array_attr("temp", "units", DType::String);
    s
}

fn sample_meta() -> StoreMeta {
    let mut meta = StoreMeta::new(Codec::default());
    meta.insert_dataset("ds1", sample_schema());
    meta
}

#[test]
fn persist_load_meta_missing_returns_default_json_uncompressed() {
    let source = choose_source(&vec![]);
    assert!(!source.present);
    assert_eq!(source.format, MetaFormat::Json);
    assert_eq!(source.compression, Codec::Uncompressed);
    let meta = StoreMeta::default();
    assert_eq!(meta.version(), 0);
    assert_eq!(meta.row_slots(), 0);
}

#[test]
fn persist_save_and_load_roundtrip_all_variants() {
    for (format, compression) in atlas::config::all_meta_variants() {
        let files = vec![format.filename(compression).to_string()];
        let source = choose_source(&files);
        assert!(source.present);
        assert_eq!(source.format, format);
        assert_eq!(source.compression, compression);

        let loaded = from_wire(&to_wire(&sample_meta())).unwrap();
        assert_eq!(loaded.version(), STORE_FORMAT_VERSION);
        let ds = loaded.live_schema("ds1").unwrap();
        assert_eq!(ds.arrays().get("temp").unwrap().dtype, DType::Float32);
        assert_eq!(ds.arrays().get("temp").unwrap().shape, vec![4, 8]);
        assert_eq!(keys(ds.global_attrs()), ["month", "active"]);
        assert_eq!(ds.global_attrs().get("month"), Some(&DType::Int64));
        assert_eq!(
            ds.array_attrs().get("temp").unwrap().get("units"),
            Some(&DType::String)
        );
    }
}

#[test]
fn persist_identical_schemas_are_interned() {
    let mut meta = StoreMeta::new(Codec::default());
    meta.insert_dataset("a", sample_schema());
    meta.insert_dataset("b", sample_schema());
    meta.insert_dataset("c", sample_schema());
    let mut other = sample_schema();
    other.register_global_attr("extra", DType::Float64);
    meta.insert_dataset("d", other);

    let wire = to_wire(&meta);
    assert_eq!(wire.schemas.len(), 2, "three identical + one distinct");
    assert_eq!(wire.datasets.get("a"), wire.datasets.get("b"));
    assert_eq!(wire.datasets.get("a"), wire.datasets.get("c"));
    assert_ne!(wire.datasets.get("a"), wire.datasets.get("d"));

    let loaded = from_wire(&wire).unwrap();
    assert_eq!(loaded.row_slots(), 4);
    assert!(loaded
        .live_schema("a")
        .unwrap()
        .same(loaded.live_schema("b").unwrap()));
    assert_eq!(
        loaded
            .live_schema("a")
            .unwrap()
            .arrays()
            .get("temp")
            .unwrap()
            .shape,
        vec![4, 8]
    );
    assert!(loaded
        .live_schema("d")
        .unwrap()
        .global_attrs()
        .contains("extra"));
}

#[test]
fn persist_compression_shrinks_encoded_bytes() {
    let raw: Vec<u8> = b"{\"dtype\":\"Float32\",\"shape\":[100,200,300]}"
        .iter()
        .copied()
        .cycle()
        .take(8_000)
        .collect();
    for codec in [Codec::Zstd, Codec::Lz4] {
        let packed = codec.compress(raw.clone()).unwrap();
        assert!(packed.len() < raw.len(), "{codec:?}");
        assert_eq!(codec.decompress(&packed).unwrap(), raw);
    }
    let plain = Codec::Uncompressed.compress(raw.clone()).unwrap();
    assert_eq!(plain, raw);
    assert!(Codec::Zstd.decompress(b"no zstd frame").is_err());
    assert!(Codec::Lz4.decompress(&[0xff; 3]).is_err());
}

#[test]
fn persist_load_detects_msgpack_zstd_when_only_that_present() {
    let source = choose_source(&vec!["atlas.msgpack.zst".to_string(), "other".to_string()]);
    assert!(source.present);
    assert_eq!(source.format, MetaFormat::MsgPack);
    assert_eq!(source.compression, Codec::Zstd);
}

#[test]
fn persist_load_priority_order_when_many_present() {
    let files = vec![
        "atlas.msgpack.zst".to_string(),
        "atlas.json.zst".to_string(),
        "atlas.json".to_string(),
    ];
    let source = choose_source(&files);
    assert_eq!(source.format, MetaFormat::Json);
    assert_eq!(source.compression, Codec::Uncompressed);
    assert_eq!(
        detect_variants(&files),
        vec![
            (MetaFormat::Json, Codec::Uncompressed),
            (MetaFormat::Json, Codec::Zstd),
            (MetaFormat::MsgPack, Codec::Zstd)
        ]
    );
}

#[test]
fn persist_legacy_version_rejected() {
    assert!(check_store_version(STORE_FORMAT_VERSION).is_ok());
    assert!(matches!(
        check_store_version(1),
        Err(Error::UnsupportedVersion {
            found: 1,
            expected: 3
        })
    ));
}

#[test]
fn persist_merged_schema_serialized_in_atlas_json() {
    let mut meta = StoreMeta::new(Codec::default());
    meta.insert_dataset("a", schema_with_array("temp", DType::Int32));
    let wire = to_wire(&meta);
    assert_eq!(wire.merged.arrays.get("temp").unwrap().dtype, DType::Int32);
}

#[test]
fn tombstones_keep_every_ordinal() {
    let mut meta = StoreMeta::default();
    assert_eq!(meta.add_dataset("a"), 0);
    assert_eq!(meta.add_dataset("b"), 1);
    assert_eq!(meta.add_dataset("c"), 2);
    assert!(meta.unrecord_dataset("b").is_some());
    assert!(meta.unrecord_dataset("b").is_none());
    assert_eq!(meta.row_slots(), 3);
    assert_eq!(meta.live_count(), 2);
    assert_eq!(meta.live_ordinal("c"), Some(2));
    assert_eq!(meta.live_ordinal("b"), None);
    assert_eq!(meta.deleted_ordinals(), vec![1]);
    assert_eq!(meta.live_mask(), vec![true, false, true]);
    assert_eq!(
        meta.names_by_row(),
        vec![Some("a".to_string()), None, Some("c".to_string())]
    );
    // A name that comes back takes its old row.
    assert_eq!(meta.add_dataset("b"), 1);
    assert!(meta.is_live("b"));
    meta.unrecord_dataset("a");
    meta.drop_tombstones();
    assert_eq!(meta.live_names(), ["b", "c"]);
    assert_eq!(meta.row_slots(), 2);
}

#[test]
fn written_metadata_keeps_tombstones_and_epoch() {
    let mut meta = conflicted_meta();
    meta.unrecord_dataset("ds3");
    meta.set_meta_epoch(9);
    let mut wire = to_wire(&meta);
    wire.version = STORE_FORMAT_VERSION;
    let loaded = from_wire(&wire).unwrap();
    assert_eq!(loaded.deleted_ordinals(), vec![3]);
    assert_eq!(loaded.meta_epoch(), 9);
    assert_eq!(loaded.live_names(), meta.live_names());
    check_against_scan(&loaded);
}

#[test]
fn a_schema_out_of_the_pool_is_corrupt_metadata() {
    let mut wire = to_wire(&sample_meta());
    wire.datasets.insert("stray".to_string(), 7);
    assert!(matches!(from_wire(&wire), Err(Error::CorruptMetadata(_))));
}

#[test]
fn the_first_codec_of_an_array_stays() {
    let mut meta = StoreMeta::default();
    let mut first = array_of(DType::Int8);
    first.codec = Codec::Lz4;
    meta.record_array("a", "x", first);
    meta.record_array("b", "x", array_of(DType::Int8));
    assert_eq!(meta.array_file_codec("x"), Some(Codec::Lz4));
    assert_eq!(meta.array_file_codec("y"), None);
}

#[test]
fn lz4_blocks_name_the_length_first() {
    let packed = Codec::Lz4.compress(vec![7u8; 300]).unwrap();
    assert_eq!(&packed[..4], &[44, 1, 0, 0]);
    assert_eq!(Codec::Lz4.decompress(&packed).unwrap(), vec![7u8; 300]);
}

#[test]
fn a_loaded_store_shares_alike_schemas() {
    let mut meta = StoreMeta::new(Codec::default());
    for name in ["a", "b", "c"] {
        meta.insert_dataset(name, sample_schema());
    }
    meta.record_global_attr("c", "extra", DType::Int64);
    assert!(!meta.shares_schema("a", "b"), "an edited dataset is its own");
    let mut loaded = from_wire(&to_wire(&meta)).unwrap();
    assert!(loaded.shares_schema("a", "b"));
    assert!(!loaded.shares_schema("a", "c"));

    // What is left after tombstones go is shared as before.
    loaded.unrecord_dataset("c");
    loaded.drop_tombstones();
    assert!(loaded.shares_schema("a", "b"));
    assert!(!loaded.shares_schema("a", "c"));
    assert_eq!(loaded.row_slots(), 2);
}

#[test]
fn every_dataset_reads_back_in_its_own_order() {
    let in_order = |names: [&str; 2]| {
        let mut schema = DatasetSchema::new();
        for name in names {
            schema.register_array(name, array_of(DType::Int8));
            schema.register_global_attr(name, DType::String);
        }
        schema
    };
    let mut meta = StoreMeta::new(Codec::default());
    meta.insert_dataset("a", in_order(["x", "y"]));
    meta.insert_dataset("b", in_order(["y", "x"]));
    meta.insert_dataset("c", in_order(["x", "y"]));
    assert!(!in_order(["x", "y"]).same(&in_order(["y", "x"])));
    assert_eq!(
        schema_hash(&in_order(["x", "y"])),
        schema_hash(&in_order(["x", "y"]))
    );

    let wire = to_wire(&meta);
    assert_eq!(wire.schemas.len(), 2);
    let loaded = from_wire(&wire).unwrap();
    assert!(loaded.shares_schema("a", "c"));
    for (name, order) in [("a", ["x", "y"]), ("b", ["y", "x"]), ("c", ["x", "y"])] {
        let schema = loaded.live_schema(name).unwrap();
        assert_eq!(keys(schema.arrays()), order);
        assert_eq!(keys(schema.global_attrs()), order);
    }
}
