use atlas::binding::cells::{column_keys, stat_vec_to_cells, Cells, FloatCell};
use atlas::binding::fill::{py_to_fill_value, Refusal, Scalar};
use atlas::binding::options::{
    atlas_repr, dataset_view_repr, dataset_writer_repr, on_exit, plan_attribute, store_config,
    writer_config, writer_repr, Exit, ValueKind,
};
use atlas::binding::raised::{to_py_err, ErrorClass, Raised};
use atlas::binding::transfer::{
    check_input, check_open, plan_define, plan_read, plan_read_across, plan_write, text_elements,
    Element, TextInput,
};
use atlas::config::{Codec, MetaFormat, TypeMismatchPolicy};
use atlas::error::Error;
use atlas::pruning::value::StatVal;
use atlas::pruning::ColumnKey;
use atlas::schema::array::FillValueS;
use atlas::schema::dtype::DType;

fn whole(n: i128) -> Scalar {
    Scalar::Int {
        whole: Some(n),
        float: Some((n as f64).to_bits()),
    }
}

fn huge() -> Scalar {
    Scalar::Int {
        whole: None,
        float: None,
    }
}

fn raised(class: ErrorClass, message: &str) -> Raised {
    Raised {
        class,
        message: message.to_string(),
    }
}

fn refused(class: ErrorClass, message: &str) -> Refusal {
    Refusal::Raise(raised(class, message))
}

#[test]
fn integers_fill_in_their_range() {
    let fill = |v: i128, d: DType| py_to_fill_value(&whole(v), &d, "int");
    assert_eq!(fill(-128, DType::Int8), Ok(FillValueS::Int(-128)));
    assert_eq!(fill(255, DType::UInt8), Ok(FillValueS::UInt(255)));
    assert_eq!(
        fill(7, DType::TimestampNs),
        Ok(FillValueS::TimestampNs(7))
    );
    assert_eq!(
        fill(i64::MIN as i128, DType::Int64),
        Ok(FillValueS::Int(i64::MIN))
    );
    assert_eq!(
        fill(-129, DType::Int8),
        Err(refused(
            ErrorClass::Overflow,
            "fill_value -129 is out of range for int8"
        ))
    );
    assert_eq!(
        fill(-1, DType::UInt16),
        Err(refused(
            ErrorClass::Overflow,
            "fill_value -1 is negative; uint16 is unsigned"
        ))
    );
    assert_eq!(
        fill(i128::MIN, DType::UInt64),
        Err(refused(
            ErrorClass::Overflow,
            "fill_value -170141183460469231731687303715884105728 is negative; uint64 is unsigned"
        ))
    );
    assert_eq!(
        fill(1 << 64, DType::UInt64),
        Err(refused(
            ErrorClass::Overflow,
            "fill_value 18446744073709551616 is out of range for uint64"
        ))
    );
    assert_eq!(fill(1 << 64, DType::Int64), Err(Refusal::Unreadable));
    assert_eq!(
        py_to_fill_value(&huge(), &DType::UInt8, "int"),
        Err(Refusal::Unreadable)
    );
}

#[test]
fn other_fills_keep_their_type() {
    assert_eq!(
        py_to_fill_value(&Scalar::Bool(true), &DType::Bool, "bool"),
        Ok(FillValueS::Bool(true))
    );
    assert_eq!(
        py_to_fill_value(&whole(1), &DType::Bool, "int"),
        Err(refused(
            ErrorClass::Type,
            "fill_value for bool array must be a bool, got int"
        ))
    );
    assert_eq!(
        py_to_fill_value(&Scalar::Bool(true), &DType::Int8, "bool"),
        Err(refused(
            ErrorClass::Type,
            "fill_value for int8 array must be an int, got bool"
        ))
    );
    assert_eq!(
        py_to_fill_value(&whole(3), &DType::Float32, "int"),
        Ok(FillValueS::Float(3.0f64.to_bits()))
    );
    assert_eq!(
        py_to_fill_value(&Scalar::Text("x".to_string()), &DType::Float64, "str"),
        Err(refused(
            ErrorClass::Type,
            "fill_value for float64 array must be a float or int, got str"
        ))
    );
    assert_eq!(
        py_to_fill_value(&huge(), &DType::Float64, "int"),
        Err(Refusal::Unreadable)
    );
    assert_eq!(
        py_to_fill_value(&Scalar::Text("x".to_string()), &DType::String, "str"),
        Ok(FillValueS::String("x".to_string()))
    );
    assert_eq!(
        py_to_fill_value(&Scalar::Other, &DType::Binary, "bytes"),
        Err(refused(
            ErrorClass::NotImplemented,
            "fill_value for binary arrays is not yet supported"
        ))
    );
    let list = DType::List {
        child: Box::new(DType::Int8),
    };
    assert!(py_to_fill_value(&whole(1), &list, "int").is_err());
}

#[test]
fn a_definition_reads_the_type_then_the_fill() {
    let fill = Some((whole(-1), "int".to_string()));
    let plan = plan_define("int16", &fill, false).unwrap();
    assert_eq!(plan.dtype, DType::Int16);
    assert_eq!(plan.fill, Some(FillValueS::Int(-1)));
    assert_eq!(plan.element, Element::Int16);
    assert_eq!(
        plan_define("int17", &fill, true).unwrap_err(),
        refused(ErrorClass::Value, "unknown dtype string: \"int17\"")
    );
    assert!(matches!(
        plan_define("uint8", &fill, true),
        Err(Refusal::Raise(Raised {
            class: ErrorClass::Overflow,
            ..
        }))
    ));
    assert!(matches!(
        plan_define("bool", &None, true),
        Err(Refusal::Raise(Raised {
            class: ErrorClass::Value,
            ..
        }))
    ));
    assert_eq!(
        plan_define("bool", &None, false).unwrap_err(),
        refused(
            ErrorClass::NotImplemented,
            "Bool arrays are not supported by the underlying array-format crate"
        )
    );
}

#[test]
fn a_write_checks_its_input() {
    assert_eq!(
        plan_write(&Some(DType::Float64), "t"),
        Ok(Element::Float64)
    );
    assert_eq!(
        plan_write(&None, "t"),
        Err(raised(ErrorClass::Key, "array not found: t"))
    );
    assert!(plan_write(&Some(DType::Binary), "t").is_err());
    assert_eq!(
        check_input(Element::Int8, &DType::Int8, "t", true, true),
        Ok(())
    );
    assert_eq!(
        check_input(Element::Int8, &DType::Int8, "t", false, true),
        Err(raised(
            ErrorClass::Type,
            "expected numpy ndarray with dtype int8 for array \"t\""
        ))
    );
    assert_eq!(
        check_input(Element::TimestampNs, &DType::TimestampNs, "t", false, true),
        Err(raised(
            ErrorClass::Type,
            "expected numpy ndarray with dtype int64 (use arr.view(np.int64) \
             for datetime64[ns]) for array \"t\""
        ))
    );
    assert_eq!(
        check_input(Element::String, &DType::String, "t", false, true),
        Err(raised(
            ErrorClass::Type,
            "expected numpy ndarray of object/bytes/unicode strings for array \"t\""
        ))
    );
    assert_eq!(
        check_input(Element::String, &DType::String, "t", true, false),
        Err(raised(
            ErrorClass::Value,
            "input numpy array must be C-contiguous"
        ))
    );
    assert_eq!(check_open(false), Ok(()));
    assert_eq!(check_open(true).unwrap_err().class, ErrorClass::Value);
}

#[test]
fn string_elements_are_texts_or_bytes() {
    let inputs = vec![
        TextInput::Text("a".to_string()),
        TextInput::Bytes("é".as_bytes().to_vec()),
        TextInput::Bytes(vec![b'x', 0xff]),
    ];
    assert_eq!(
        text_elements(&inputs),
        Ok(vec![
            "a".to_string(),
            "é".to_string(),
            "x\u{fffd}".to_string()
        ])
    );
    let inputs = vec![
        TextInput::Text("a".to_string()),
        TextInput::Other("int".to_string()),
        TextInput::Other("float".to_string()),
    ];
    assert_eq!(
        text_elements(&inputs),
        Err(raised(
            ErrorClass::Type,
            "string array element must be str or bytes, got \"int\""
        ))
    );
}

#[test]
fn a_read_takes_a_region() {
    assert!(plan_read(&None, None, None).unwrap().is_none());
    let plan = plan_read(&Some(DType::String), Some(vec![1]), None)
        .unwrap()
        .unwrap();
    assert_eq!(plan.element, Element::String);
    assert_eq!(plan.start, vec![1]);
    assert!(plan.shape.is_empty());
    assert!(plan_read(&Some(DType::Bool), None, None).is_err());

    let names = vec!["a".to_string()];
    let across = |stacked, names: &Vec<String>, d| {
        plan_read_across(stacked, "t", names, &d, None, Some(vec![2]))
    };
    let plan = across(false, &names, Some(DType::TimestampNs)).unwrap();
    assert_eq!(plan.element, Element::TimestampNs);
    assert_eq!(plan.shape, vec![2]);
    assert_eq!(
        across(false, &vec![], None).unwrap_err(),
        raised(ErrorClass::Value, "dataset_names is empty")
    );
    assert_eq!(
        across(true, &names, None).unwrap_err(),
        raised(ErrorClass::Key, "array not found: t")
    );
    assert_eq!(
        across(false, &names, Some(DType::String)).unwrap_err(),
        raised(
            ErrorClass::NotImplemented,
            "read_array_across does not support dtype String"
        )
    );
    assert_eq!(
        across(true, &names, Some(DType::Bool)).unwrap_err(),
        raised(
            ErrorClass::NotImplemented,
            "read_array_across_stacked does not support dtype Bool"
        )
    );
}

#[test]
fn a_column_takes_the_type_of_its_values() {
    let half = 0.5f64.to_bits();
    match stat_vec_to_cells(&vec![Some(StatVal::Int(3)), None, Some(StatVal::TimestampNs(4))]) {
        Cells::Signed(list) => assert_eq!(list, vec![3, 0, 4]),
        other => panic!("{other:?}"),
    }
    match stat_vec_to_cells(&vec![Some(StatVal::Int(-3)), Some(StatVal::UInt(9)), None]) {
        Cells::Unsigned(list) => assert_eq!(list, vec![0, 9, 0]),
        other => panic!("{other:?}"),
    }
    match stat_vec_to_cells(&vec![
        Some(StatVal::Float(half)),
        Some(StatVal::UInt(9)),
        Some(StatVal::TimestampNs(-1)),
        None,
    ]) {
        Cells::Floats(list) => assert_eq!(
            list,
            vec![
                FloatCell::Bits(half),
                FloatCell::Unsigned(9),
                FloatCell::Signed(-1),
                FloatCell::Missing
            ]
        ),
        other => panic!("{other:?}"),
    }
    match stat_vec_to_cells(&vec![
        Some(StatVal::Float(half)),
        Some(StatVal::Bytes(b"x".to_vec())),
    ]) {
        Cells::Bytes(list) => assert_eq!(list, vec![None, Some(b"x".to_vec())]),
        other => panic!("{other:?}"),
    }
}

#[test]
fn a_request_lists_its_columns() {
    let keys = column_keys(
        &vec!["t".to_string()],
        &vec!["title".to_string()],
        &vec![("t".to_string(), "units".to_string())],
    );
    assert_eq!(
        keys,
        vec![
            ColumnKey::array("t"),
            ColumnKey::global_attr("title"),
            ColumnKey::array_attr("t", "units")
        ]
    );
}

#[test]
fn errors_become_exceptions() {
    let of = |e: Error| to_py_err(&e);
    assert_eq!(
        of(Error::DatasetNotFound("a".to_string())),
        raised(ErrorClass::Key, "dataset not found: a")
    );
    assert_eq!(
        of(Error::ArrayAlreadyExists("a".to_string())),
        raised(ErrorClass::FileExists, "array already exists: a")
    );
    assert_eq!(
        of(Error::InvalidName("_a".to_string())),
        raised(ErrorClass::Value, "invalid name: _a")
    );
    assert_eq!(of(Error::WriterFinished).class, ErrorClass::Value);
    assert_eq!(
        of(Error::CorruptMask("x".to_string())),
        raised(ErrorClass::Runtime, "corrupt deletion mask: x")
    );
}

#[test]
fn settings_come_from_words() {
    let config = writer_config("LZ4", Some(10)).unwrap();
    assert_eq!(config.codec, Codec::Lz4);
    assert_eq!(config.block_target_size, 10);
    assert_eq!(
        writer_config("zstd", None).unwrap().block_target_size,
        8 * 1024 * 1024
    );
    assert_eq!(
        writer_config("zstd", Some(0)).unwrap_err(),
        raised(ErrorClass::Value, "block_target_size must be positive")
    );
    let store = store_config("none", "msgpack", "zstd", "raise").unwrap();
    assert_eq!(store.codec, Codec::Uncompressed);
    assert_eq!(store.meta_format, MetaFormat::MsgPack);
    assert_eq!(store.meta_compression, Codec::Zstd);
    assert_eq!(store.on_type_mismatch, TypeMismatchPolicy::Error);
    assert!(store_config("zstd", "x", "y", "z")
        .unwrap_err()
        .message
        .starts_with("unknown meta_format"));
}

#[test]
fn attributes_take_the_hinted_type_or_the_widest() {
    let plan = |hint, kind| plan_attribute(hint, kind, "dict");
    assert_eq!(plan(None, ValueKind::Int), Ok(DType::Int64));
    assert_eq!(plan(None, ValueKind::Bytes), Ok(DType::Binary));
    assert_eq!(plan(Some("I8"), ValueKind::Int), Ok(DType::Int8));
    assert_eq!(
        plan(None, ValueKind::Other),
        Err(raised(
            ErrorClass::Value,
            "unsupported attribute type: \"dict\""
        ))
    );
    assert_eq!(
        plan(Some("x"), ValueKind::Int),
        Err(raised(
            ErrorClass::Value,
            "unknown attribute dtype: \"x\""
        ))
    );
}

#[test]
fn a_context_manager_commits_on_a_clean_exit() {
    assert_eq!(on_exit(false), Exit::Finish);
    assert_eq!(on_exit(true), Exit::Discard);
}

#[test]
fn objects_show_themselves() {
    assert_eq!(writer_repr(Some(2)), "<AtlasWriter datasets=2>");
    assert_eq!(writer_repr(None), "<AtlasWriter finished>");
    assert_eq!(
        dataset_writer_repr(Some("a"), 3),
        "<DatasetWriter name=\"a\" arrays=3>"
    );
    assert_eq!(dataset_writer_repr(None, 0), "<DatasetWriter finished>");
    assert_eq!(
        dataset_view_repr("a", 1),
        "<DatasetView name=\"a\" arrays=1>"
    );
    assert_eq!(atlas_repr(12), "<Atlas datasets=12>");
}
