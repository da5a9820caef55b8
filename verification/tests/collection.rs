use atlas::config::{Codec, WriterConfig};
use atlas::error::Error;
use atlas::format::footer::CollectionFooter;
use atlas::format::mask::encode;
use atlas::format::{
    encode_header, encode_trailer, DATASET_ATTRS_VARIABLE, FORMAT_VERSION, SEGMENT_FORMAT,
};
use atlas::pruning::value::StatVal;
use atlas::reader::open::{locate_footer, plan_open, FooterPlace};
use atlas::reader::Atlas;
use atlas::schema::attr::Attr;
use atlas::schema::dtype::DType;
use atlas::schema::layout::StoredLayout;
use atlas::stats::ArrayStats;
use atlas::writer::collection::{place_segments, Placed};
use atlas::writer::AtlasWriter;

fn segments(writer: &AtlasWriter) -> Vec<Placed> {
    writer
        .list_variables()
        .iter()
        .enumerate()
        .map(|(i, _)| Placed {
            seg_offset: 8 + i as u64 * 160,
            seg_len: 128,
            stats_offset: 8 + i as u64 * 160 + 128,
            stats_len: 32,
        })
        .collect()
}

// Three datasets: two of one convention, and one that declares another array.
fn written() -> CollectionFooter {
    let mut w = AtlasWriter::new(WriterConfig::default());
    for month in ["jan", "feb"] {
        let mut ds = w.add_dataset(month).unwrap();
        let chunk = ds
            .define_array("temperature", DType::Float32, &vec![4, 8], None)
            .unwrap();
        assert_eq!(chunk, vec![4, 8], "one chunk by default");
        ds.set_attribute("month", Attr::Int64(1));
        ds.set_array_attribute("temperature", "units", Attr::String("K".to_string()))
            .unwrap();
        w.commit(ds);
    }
    let mut ds = w.add_dataset("mar").unwrap();
    ds.define_array("salinity", DType::Int16, &vec![4], Some(vec![2]))
        .unwrap();
    w.commit(ds);
    let placed = segments(&w);
    w.finish(SEGMENT_FORMAT, 1_700_000_000_000, &placed)
}

fn open(mask: Option<&[u8]>) -> Atlas {
    Atlas::open(written(), mask, 4_096).unwrap()
}

fn masked(ordinals: &[u32]) -> Vec<u8> {
    encode(&ordinals.iter().copied().collect())
}

#[test]
fn a_finished_collection_opens_with_what_was_written() {
    let atlas = open(None);
    assert_eq!(atlas.list_datasets(), ["jan", "feb", "mar"]);
    assert_eq!(atlas.list_arrays(), ["salinity", "temperature"]);
    assert_eq!(atlas.dataset_count(), 3);
    assert_eq!(atlas.total_datasets(), 3);
    assert_eq!(atlas.interned_schemas(), 2);
    assert_eq!(atlas.format_version(), FORMAT_VERSION);
    assert_eq!(atlas.created_unix_ms(), 1_700_000_000_000);
    assert_eq!(atlas.codec(), Codec::Zstd);
    assert_eq!(atlas.container_bytes(), 4_096);

    let ds = atlas.dataset("jan").unwrap();
    assert_eq!(ds.name(), "jan");
    assert_eq!(ds.ordinal(), 0);
    assert_eq!(ds.list_arrays(), ["temperature"]);
    assert_eq!(
        ds.array_meta("temperature").unwrap().dtype(),
        &DType::Float32
    );
    assert_eq!(ds.schema().attribute_dtype("month"), Some(&DType::Int64));
    assert_eq!(
        ds.array_meta("temperature")
            .unwrap()
            .attribute_dtype("units"),
        Some(&DType::String)
    );
}

#[test]
fn datasets_stand_by_the_call_that_began_them() {
    let mut w = AtlasWriter::new(WriterConfig::default());
    let a = w.add_dataset("a").unwrap();
    let b = w.add_dataset("b").unwrap();
    let c = w.add_dataset("c").unwrap();
    assert_eq!((a.number(), b.number(), c.number()), (0, 1, 2));
    w.commit(c);
    w.commit(a);
    assert_eq!(w.dataset_count(), 2);
    drop(b); // abandoned: it never enters the collection
    let footer = w.finish(SEGMENT_FORMAT, 0, &vec![]);
    let atlas = Atlas::open(footer, None, 0).unwrap();
    assert_eq!(atlas.list_datasets(), ["a", "c"]);
    assert_eq!(atlas.ordinal_of("c"), Some(1));
}

#[test]
fn a_writer_refuses_bad_names() {
    let mut w = AtlasWriter::new(WriterConfig::default());
    let mut ds = w.add_dataset("a").unwrap();
    assert!(matches!(
        w.add_dataset("a"),
        Err(Error::DatasetAlreadyExists(_))
    ));
    assert!(matches!(w.add_dataset("_a"), Err(Error::InvalidName(_))));
    ds.define_array("x", DType::Int8, &vec![1], None).unwrap();
    assert!(matches!(
        ds.define_array("x", DType::Int8, &vec![1], None),
        Err(Error::ArrayAlreadyExists(_))
    ));
    assert!(matches!(
        ds.define_array("a/b", DType::Int8, &vec![1], None),
        Err(Error::InvalidName(_))
    ));
    assert!(matches!(
        ds.set_array_attribute("y", "k", Attr::Bool(true)),
        Err(Error::ArrayNotFound(_))
    ));
    assert_eq!(ds.dtype_of("x").unwrap(), &DType::Int8);
    assert!(matches!(ds.dtype_of("y"), Err(Error::ArrayNotFound(_))));
    assert_eq!(ds.list_arrays(), ["x"]);
}

#[test]
fn attributes_of_a_dataset_have_a_variable_of_their_own() {
    let mut w = AtlasWriter::new(WriterConfig::default());
    let mut ds = w.add_dataset("a").unwrap();
    ds.define_array("x", DType::Int8, &vec![1], None).unwrap();
    ds.set_attribute("k", Attr::Bool(true));
    ds.set_attribute("k", Attr::Int8(3));
    w.commit(ds);
    assert_eq!(w.list_variables(), ["x", "_datasets"]);
    let placed = segments(&w);
    let footer = w.finish(SEGMENT_FORMAT, 0, &placed);
    let atlas = Atlas::open(footer, None, 0).unwrap();
    let ds = atlas.dataset("a").unwrap();
    // The second value keeps the place and gives its own type.
    assert_eq!(ds.schema().attribute_names(), ["k"]);
    assert_eq!(ds.schema().attribute_dtype("k"), Some(&DType::Int8));
    let source = ds.attributes_source().unwrap().unwrap();
    assert_eq!(source.segment, 1);
    assert_eq!(source.keys, ["k"]);
}

#[test]
fn an_empty_segment_does_not_open() {
    let mut w = AtlasWriter::new(WriterConfig::default());
    let mut ds = w.add_dataset("a").unwrap();
    ds.define_array("x", DType::Int8, &vec![1], None).unwrap();
    w.commit(ds);
    let mut placed = segments(&w);
    placed[0].seg_len = 0;
    let footer = w.finish(SEGMENT_FORMAT, 0, &placed);
    assert!(matches!(
        Atlas::open(footer, None, 0),
        Err(Error::CorruptCollection(_))
    ));
}

#[test]
fn a_mask_hides_datasets_and_moves_none() {
    let mask = masked(&[1, 99]);
    let atlas = open(Some(&mask));
    assert_eq!(atlas.list_datasets(), ["jan", "mar"]);
    assert_eq!(atlas.deleted_names(), ["feb"]);
    assert_eq!(atlas.ordinal_of("mar"), Some(2));
    assert_eq!(atlas.ordinal_of("feb"), None);
    assert!(!atlas.dataset_exists("feb"));
    assert!(matches!(
        atlas.dataset("feb"),
        Err(Error::DatasetNotFound(_))
    ));
    assert_eq!(atlas.total_datasets(), 3);
    assert!(matches!(
        Atlas::open(written(), Some(b"not a mask at all"), 0),
        Err(Error::CorruptMask(_))
    ));
}

#[test]
fn a_delete_names_live_datasets_only() {
    let mut atlas = open(None);
    let names = |list: &[&str]| list.iter().map(|s| s.to_string()).collect::<Vec<_>>();
    // A repeated name counts once.
    let planned = atlas.plan_delete(&names(&["feb", "jan", "feb"])).unwrap();
    assert_eq!(planned.iter().copied().collect::<Vec<_>>(), vec![0, 1]);
    match atlas.plan_delete(&names(&["jan", "may", "apr"])) {
        Err(Error::DatasetNotFound(name)) => assert_eq!(name, "apr"),
        other => panic!("{other:?}"),
    }
    atlas.set_deleted(planned);
    assert_eq!(atlas.list_datasets(), ["mar"]);
    assert_eq!(atlas.list_arrays(), ["salinity"]);
    assert!(atlas.plan_delete(&names(&["jan"])).is_err());
}

fn recorded(name: &str, min: StatVal, max: StatVal, rows: u64) -> ArrayStats {
    ArrayStats {
        name: name.to_string(),
        min: Some(min),
        max: Some(max),
        null_count: 1,
        row_count: rows,
    }
}

#[test]
fn statistics_cover_every_live_dataset() {
    let stats = vec![
        recorded("jan", StatVal::Int(1), StatVal::Int(5), 10),
        recorded("feb", StatVal::Int(-9), StatVal::Int(3), 20),
        recorded("mar", StatVal::Int(2), StatVal::Int(8), 30),
    ];
    let atlas = open(None);
    let total = atlas.array_stats("temperature", &stats).unwrap();
    assert_eq!(total.name, "temperature");
    assert_eq!(total.min, Some(StatVal::Int(-9)));
    assert_eq!(total.max, Some(StatVal::Int(8)));
    assert_eq!((total.null_count, total.row_count), (3, 60));

    let mask = masked(&[1]);
    let atlas = open(Some(&mask));
    let total = atlas.array_stats("temperature", &stats).unwrap();
    assert_eq!(total.min, Some(StatVal::Int(1)));
    assert_eq!(total.row_count, 40);
    let each = atlas.array_stats_by_dataset(&stats);
    assert_eq!(each.len(), 2);
    assert_eq!(each[1].name, "mar");
    assert!(atlas.array_stats("temperature", &vec![]).is_none());
}

#[test]
fn an_unrelated_type_stays_out_of_the_statistics() {
    let stats = vec![
        recorded("jan", StatVal::Int(1), StatVal::Int(5), 10),
        recorded(
            "feb",
            StatVal::Bytes(b"a".to_vec()),
            StatVal::Bytes(b"z".to_vec()),
            20,
        ),
        recorded("mar", StatVal::Int(0), StatVal::Int(2), 30),
    ];
    let total = open(None).array_stats("x", &stats).unwrap();
    assert_eq!(total.min, Some(StatVal::Int(0)));
    assert_eq!(total.max, Some(StatVal::Int(5)));
    assert_eq!(total.row_count, 40);
}

#[test]
fn attribute_values_join_to_the_live_datasets() {
    let mask = masked(&[0]);
    let atlas = open(Some(&mask));
    let table = atlas.attributes_by_dataset(vec![Some(Attr::Int64(2)), None]);
    assert_eq!(table.len(), 1);
    assert_eq!(table.get("feb"), Some(&Attr::Int64(2)));
}

#[test]
fn a_view_says_which_segment_answers() {
    let atlas = open(None);
    let jan = atlas.dataset("jan").unwrap();
    let mar = atlas.dataset("mar").unwrap();
    assert_eq!(jan.segment("temperature").unwrap(), 0);
    assert_eq!(atlas.try_segment("salinity"), Some(2));
    assert_eq!(atlas.try_segment("missing"), None);
    assert_eq!(jan.stats_source("temperature").unwrap(), Some(0));
    assert_eq!(jan.stats_source("salinity").unwrap(), None);
    assert!(matches!(
        jan.layout_source("salinity"),
        Err(Error::ArrayNotFound(_))
    ));
    assert_eq!(
        jan.array_attributes_source("temperature")
            .unwrap()
            .unwrap()
            .keys,
        ["units"]
    );
    assert!(mar.attributes_source().unwrap().is_none());
    assert!(mar.array_attributes_source("salinity").unwrap().is_none());
    assert_eq!(jan.read_source("temperature", &DType::Float32).unwrap(), 0);
    let err = jan.read_source("temperature", &DType::Int8).unwrap_err();
    assert!(err.message().contains("is Float32, not Int8"));
    assert!(jan.read_source("salinity", &DType::Int16).is_err());
    let layout = mar
        .array_layout(
            "salinity",
            Some(StoredLayout {
                shape: vec![4],
                chunk_shape: vec![2],
                dimension_names: vec!["x".to_string()],
                fill_value: None,
            }),
        )
        .unwrap();
    assert_eq!(layout.chunk_shape(), [2]);
    assert!(mar.array_layout("salinity", None).is_err());
    let stats = recorded("mar", StatVal::Int(0), StatVal::Int(2), 3);
    assert_eq!(
        mar.array_stats("salinity", Some(&stats)).unwrap().name,
        "salinity"
    );
    assert!(mar.array_stats("salinity", None).is_none());
}

// A container: a header, segments, a footer, and the trailer.
fn container(segments: usize, footer: &[u8]) -> Vec<u8> {
    let mut bytes = encode_header().to_vec();
    bytes.extend(vec![7u8; segments]);
    bytes.extend_from_slice(footer);
    bytes.extend_from_slice(&encode_trailer(footer.len() as u64));
    bytes
}

#[test]
fn an_open_finds_the_footer() {
    let bytes = container(100, b"footer");
    let size = bytes.len() as u64;
    let probe = plan_open(Some(size)).unwrap();
    assert_eq!(probe, size);
    match locate_footer(size, &bytes).unwrap() {
        FooterPlace::InTail { from, to } => assert_eq!(&bytes[from..to], b"footer"),
        other => panic!("{other:?}"),
    }

    let long = vec![3u8; 70_000];
    let bytes = container(10, &long);
    let size = bytes.len() as u64;
    let probe = plan_open(Some(size)).unwrap() as usize;
    assert_eq!(probe, 65_536);
    match locate_footer(size, &bytes[bytes.len() - probe..]).unwrap() {
        FooterPlace::InFile { start, end } => {
            assert_eq!(&bytes[start as usize..end as usize], &long[..])
        }
        other => panic!("{other:?}"),
    }
}

#[test]
fn an_open_refuses_what_is_no_collection() {
    let hint = |e: Error| match e {
        Error::NotAnAtlasCollection { hint } => hint,
        other => panic!("{other:?}"),
    };
    assert_eq!(
        hint(plan_open(None).unwrap_err()),
        "no 'data.atlas' under this prefix"
    );
    assert_eq!(
        hint(plan_open(Some(5)).unwrap_err()),
        "file is 5 bytes, too short to hold a header and a trailer"
    );
    let mut bytes = container(10, b"footer");
    let size = bytes.len() as u64;
    let at = bytes.len() - 16;
    bytes[at..at + 8].copy_from_slice(&1_000u64.to_le_bytes());
    assert!(matches!(
        locate_footer(size, &bytes),
        Err(Error::CorruptCollection(_))
    ));
    bytes[at..at + 8].copy_from_slice(&20u64.to_le_bytes());
    let message = locate_footer(size, &bytes).unwrap_err().message();
    assert!(message.contains("inside the container header"), "{message}");
}

#[test]
fn errors_report_themselves() {
    assert_eq!(
        Error::InvalidName("_x".to_string()).message(),
        "invalid name '_x': must be non-empty, no '/', no '..', no leading '_'"
    );
    assert_eq!(
        Error::UnsupportedVersion {
            found: 9,
            expected: 1
        }
        .message(),
        "unsupported collection format version 9; this atlas reads version 1 \
         (rewrite the collection with a matching atlas to upgrade)"
    );
}

#[test]
fn a_key_the_schema_does_not_declare_is_not_looked_up() {
    let atlas = open(None);
    let jan = atlas.dataset("jan").unwrap();
    let mar = atlas.dataset("mar").unwrap();
    let own = atlas.try_segment(DATASET_ATTRS_VARIABLE);
    assert!(own.is_some());
    assert_eq!(jan.attribute_source("month").unwrap(), own);
    assert_eq!(jan.attribute_source("units").unwrap(), None);
    assert_eq!(mar.attribute_source("month").unwrap(), None);
    assert_eq!(
        jan.array_attribute_source("temperature", "units").unwrap(),
        Some(0)
    );
    assert_eq!(
        jan.array_attribute_source("temperature", "month").unwrap(),
        None
    );
    // A name without a segment is not declared, and asks for none.
    assert_eq!(
        jan.array_attribute_source("missing", "units").unwrap(),
        None
    );
    assert_eq!(
        mar.array_attribute_source("salinity", "units").unwrap(),
        None
    );
}

#[test]
fn the_type_of_an_array_comes_from_a_live_dataset() {
    let mut w = AtlasWriter::new(WriterConfig::default());
    for (name, dtype) in [("a", DType::Int8), ("b", DType::Float64), ("c", DType::Int8)] {
        let mut ds = w.add_dataset(name).unwrap();
        ds.define_array("x", dtype, &vec![2], None).unwrap();
        w.commit(ds);
    }
    let placed = segments(&w);
    let mut atlas = Atlas::open(w.finish(SEGMENT_FORMAT, 0, &placed), None, 4_096).unwrap();
    assert_eq!(atlas.array_dtype("x"), Some(DType::Int8));
    assert_eq!(atlas.array_dtype("y"), None);
    atlas.set_deleted([0u32].into_iter().collect());
    assert_eq!(atlas.array_dtype("x"), Some(DType::Float64));
    atlas.set_deleted([0u32, 1].into_iter().collect());
    assert_eq!(atlas.array_dtype("x"), Some(DType::Int8));
    atlas.set_deleted([0u32, 1, 2].into_iter().collect());
    assert_eq!(atlas.array_dtype("x"), None);
}

#[test]
fn segments_lie_behind_the_header_back_to_back() {
    let placed = place_segments(&vec![100, 1, 7]).unwrap();
    let found: Vec<(u64, u64)> = placed.iter().map(|p| (p.seg_offset, p.seg_len)).collect();
    assert_eq!(found, [(8, 100), (108, 1), (109, 7)]);
    assert!(placed.iter().all(|p| (p.stats_offset, p.stats_len) == (0, 0)));
    assert!(place_segments(&vec![]).unwrap().is_empty());
}

#[test]
fn segments_past_the_largest_offset_have_no_place() {
    let all = u64::MAX - 8;
    assert_eq!(place_segments(&vec![all]).unwrap()[0].seg_len, all);
    assert_eq!(place_segments(&vec![all, 0]).unwrap()[1].seg_offset, u64::MAX);
    assert!(place_segments(&vec![all + 1]).is_none());
    assert!(place_segments(&vec![1, all]).is_none());
}
