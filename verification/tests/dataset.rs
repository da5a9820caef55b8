use atlas::config::{Codec, TypeMismatchPolicy};
use atlas::dataset::pending_attrs::{hash_attr, PendingAttrs};
use atlas::dataset::view::{
    array_file, check_type_alignment, open_dataset_view, Alignment, DatasetView,
    GLOBAL_ATTRS_ARRAY,
};
use atlas::error::Error;
use atlas::meta::store_meta::StoreMeta;
use atlas::schema::attr::Attr;
use atlas::schema::dtype::DType;
use atlas::timestamp::StoreAttr;

fn text(s: &str) -> StoreAttr {
    StoreAttr::Plain(Attr::String(s.to_string()))
}

fn whole(n: i64) -> StoreAttr {
    StoreAttr::Plain(Attr::Int64(n))
}

// The group of a dataset in a buffer.
fn group_of(p: &PendingAttrs, dataset: &str) -> usize {
    (0..p.group_count())
        .find(|g| p.dataset_at(*g) == dataset)
        .unwrap()
}

#[test]
fn duplicate_values_are_interned_to_one_allocation() {
    let mut p = PendingAttrs::new();
    for i in 0..100 {
        let ds = format!("ds{i}");
        p.set("_global", &ds, "flag", text("SeaDataNet quality flag"));
    }
    let drained = p.drain_all();
    assert_eq!(drained.group_count(), 100);
    assert_eq!(p.group_count(), 0);
    let first = drained.value_place(0, 0);
    for g in 0..100 {
        assert_eq!(drained.key_at(g, 0), "flag");
        assert_eq!(
            drained.value_place(g, 0),
            first,
            "every dataset's value must be the same"
        );
    }
    assert_eq!(drained.value_count(), 1);
}

#[test]
fn distinct_values_get_distinct_allocations() {
    let mut p = PendingAttrs::new();
    p.set("_global", "a", "k", text("x"));
    p.set("_global", "b", "k", text("y"));
    p.set("_global", "c", "k", whole(1));
    let drained = p.drain_all();
    let place = |ds: &str| drained.value_place(group_of(&drained, ds), 0);
    assert_ne!(place("a"), place("b"));
    assert_eq!(drained.value_at(group_of(&drained, "c"), 0), &whole(1));
}

#[test]
fn get_reads_back_the_value() {
    let mut p = PendingAttrs::new();
    p.set("v", "ds", "units", text("m/s"));
    assert_eq!(p.get("v", "ds", "units"), Some(text("m/s")));
    assert_eq!(p.get("v", "ds", "missing"), None);
    assert_eq!(p.get("v", "other", "units"), None);
}

#[test]
fn overwriting_a_key_replaces_the_value() {
    let mut p = PendingAttrs::new();
    p.set("v", "ds", "units", text("m"));
    p.set("v", "ds", "units", text("km"));
    assert_eq!(p.get("v", "ds", "units"), Some(text("km")));
}

#[test]
fn remove_dataset_prunes_the_pools() {
    let mut p = PendingAttrs::new();
    p.set("_global", "a", "k", text("shared"));
    p.set("_global", "b", "k", text("shared"));
    p.set("v", "a", "u", text("only-a"));

    p.remove_dataset("a");
    // "only-a" is gone; "shared" stays (b still uses it).
    assert!(!p.holds_value(&text("only-a")));
    assert!(p.holds_value(&text("shared")));
    assert!(!p.holds_text("only-a") && !p.holds_text("u"));
    assert!(p.holds_text("b"));
}

#[test]
fn float_values_intern_by_bit_pattern() {
    let list = || {
        StoreAttr::Plain(Attr::Float64List(vec![
            0.0f64.to_bits(),
            120.0f64.to_bits(),
        ]))
    };
    let mut p = PendingAttrs::new();
    p.set("v", "a", "range", list());
    p.set("v", "b", "range", list());
    let drained = p.drain_all();
    let a = drained.value_place(group_of(&drained, "a"), 0);
    let b = drained.value_place(group_of(&drained, "b"), 0);
    assert_eq!(a, b, "equal float lists must share one value");
}

#[test]
fn equal_values_hash_alike() {
    assert_eq!(hash_attr(&text("x")), hash_attr(&text("x")));
    assert_ne!(hash_attr(&text("x")), hash_attr(&text("y")));
    assert_ne!(hash_attr(&whole(1)), hash_attr(&StoreAttr::Plain(Attr::UInt64(1))));
}

struct Store {
    meta: StoreMeta,
    pending: PendingAttrs,
    view: DatasetView,
}

fn empty_view(name: &str) -> Store {
    let mut meta = StoreMeta::default();
    meta.add_dataset(name);
    Store {
        meta,
        pending: PendingAttrs::new(),
        view: DatasetView::new(name, Codec::default(), TypeMismatchPolicy::Warn),
    }
}

impl Store {
    fn set(&mut self, key: &str, value: StoreAttr) {
        self.view
            .set_attribute(&mut self.meta, &mut self.pending, key, value)
            .unwrap();
    }

    fn get(&self, key: &str) -> Option<StoreAttr> {
        self.view
            .attribute_value(&self.pending, GLOBAL_ATTRS_ARRAY, key, None)
    }

    fn define(
        &mut self,
        array: &str,
        dtype: DType,
        dims: &[&str],
        shape: Vec<usize>,
        chunk: Option<Vec<usize>>,
    ) -> Result<(), Error> {
        self.view.check_define(&self.meta, array, &dtype)?;
        let dims = dims.iter().map(|d| d.to_string()).collect();
        self.view
            .record_define(&mut self.meta, array, dtype, dims, shape, chunk);
        Ok(())
    }

    fn delete(&mut self, array: &str) -> Result<(), Error> {
        self.view.require_array(&self.meta, array)?;
        self.view
            .record_delete(&mut self.meta, &mut self.pending, array);
        Ok(())
    }
}

#[test]
fn dataset_get_attribute_missing_returns_none() {
    assert!(empty_view("ds").get("x").is_none());
}

#[test]
fn view_get_attribute_missing_returns_none() {
    assert!(empty_view("ds").get("x").is_none());
}

#[test]
fn dataset_set_and_get_attribute_roundtrip() {
    let mut s = empty_view("ds");
    s.set("k", whole(42));
    assert_eq!(s.get("k"), Some(whole(42)));
}

#[test]
fn view_set_and_get_attribute_roundtrip() {
    let mut s = empty_view("ds");
    s.set("k", whole(42));
    assert_eq!(s.get("k"), Some(whole(42)));
}

#[test]
fn dataset_set_attribute_overwrites_previous() {
    let mut s = empty_view("ds");
    s.set("k", whole(1));
    s.set("k", whole(2));
    assert_eq!(s.get("k"), Some(whole(2)));
}

#[test]
fn view_set_attribute_overwrites_previous() {
    let mut s = empty_view("ds");
    s.set("k", whole(1));
    s.set("k", whole(2));
    assert_eq!(s.get("k"), Some(whole(2)));
}

#[test]
fn set_attribute_records_value_in_meta() {
    let mut s = empty_view("ds");
    s.set("count", whole(5));
    s.set("label", text("x"));
    assert_eq!(s.view.attribute_keys(&s.meta), ["count", "label"]);
    assert_eq!(s.get("count"), Some(whole(5)));
    assert_eq!(s.get("label"), Some(text("x")));
}

#[test]
fn set_attribute_records_key_in_schema() {
    let mut s = empty_view("ds");
    s.set("count", whole(5));
    s.set("label", text("x"));
    assert_eq!(s.view.attribute_keys(&s.meta), ["count", "label"]);
    assert_eq!(
        s.view.schema(&s.meta).global_attrs().get("count"),
        Some(&DType::Int64)
    );
}

#[test]
fn set_array_attribute_requires_array() {
    let mut s = empty_view("ds");
    let err = s
        .view
        .set_array_attribute(&mut s.meta, &mut s.pending, "missing", "units", text("m/s"))
        .unwrap_err();
    assert!(matches!(err, Error::ArrayNotFound(_)));
}

#[test]
fn per_variable_attribute_roundtrip() {
    let mut s = empty_view("ds");
    s.define("wind", DType::Float32, &["x"], vec![4], None)
        .unwrap();
    s.view
        .set_array_attribute(&mut s.meta, &mut s.pending, "wind", "units", text("m/s"))
        .unwrap();
    assert_eq!(
        s.view.attribute_value(&s.pending, "wind", "units", None),
        Some(text("m/s"))
    );
    assert_eq!(s.view.array_attribute_keys(&s.meta, "wind"), ["units"]);
}

#[test]
fn dataset_name_returns_dataset_name() {
    assert_eq!(empty_view("my_dataset").view.name(), "my_dataset");
}

#[test]
fn view_name_returns_dataset_name() {
    assert_eq!(empty_view("my_dataset").view.name(), "my_dataset");
}

#[test]
fn dataset_list_arrays_empty_when_no_arrays_defined() {
    let s = empty_view("ds");
    assert!(s.view.list_arrays(&s.meta).is_empty());
}

#[test]
fn view_list_arrays_empty_when_no_arrays_defined() {
    let s = empty_view("ds");
    assert!(s.view.list_arrays(&s.meta).is_empty());
}

#[test]
fn view_array_meta_returns_none_for_unknown_array() {
    let s = empty_view("ds");
    assert!(s.view.array_meta(&s.meta, "missing").is_none());
    assert!(s.view.array_codec(&s.meta, "missing").is_none());
}

#[test]
fn view_define_array_appears_in_list() {
    let mut s = empty_view("ds");
    s.define("arr", DType::Float32, &["x"], vec![4], None)
        .unwrap();
    assert_eq!(s.view.list_arrays(&s.meta), vec!["arr"]);
}

#[test]
fn view_define_duplicate_array_rejected() {
    let mut s = empty_view("ds");
    s.define("arr", DType::Float32, &["x"], vec![4], None)
        .unwrap();
    let err = s
        .define("arr", DType::Float32, &["x"], vec![4], None)
        .unwrap_err();
    assert!(matches!(err, Error::ArrayAlreadyExists(_)));
}

#[test]
fn view_define_array_invalid_name_rejected() {
    let mut s = empty_view("ds");
    let err = s
        .define("a/b", DType::Float32, &["x"], vec![4], None)
        .unwrap_err();
    assert!(matches!(err, Error::InvalidName(_)));
}

#[test]
fn view_delete_array_removes_from_list() {
    let mut s = empty_view("ds");
    s.define("arr", DType::Float32, &["x"], vec![4], None)
        .unwrap();
    s.delete("arr").unwrap();
    assert!(s.view.list_arrays(&s.meta).is_empty());
}

#[test]
fn view_delete_nonexistent_array_errors() {
    let mut s = empty_view("ds");
    assert!(matches!(s.delete("ghost"), Err(Error::ArrayNotFound(_))));
}

#[test]
fn define_array_records_schema() {
    let mut s = empty_view("ds");
    s.define(
        "arr",
        DType::Float32,
        &["x", "y"],
        vec![4, 8],
        Some(vec![2, 2]),
    )
    .unwrap();
    let schema = s.view.schema(&s.meta);
    let arr = schema.arrays().get("arr").unwrap();
    assert_eq!(arr.dtype, DType::Float32);
    assert_eq!(arr.shape, vec![4, 8]);
    assert_eq!(arr.chunk_shape, vec![2, 2]);
    assert_eq!(arr.dimension_names, vec!["x", "y"]);
    assert!(schema.global_attrs().is_empty());
}

#[test]
fn view_define_array_default_chunk_equals_shape() {
    let mut s = empty_view("ds");
    s.define("arr", DType::Int32, &["t"], vec![10], None)
        .unwrap();
    let arr = s.view.array_meta(&s.meta, "arr").unwrap();
    assert_eq!(arr.dtype, DType::Int32);
    assert_eq!(arr.chunk_shape, vec![10]);
}

#[test]
fn delete_array_removes_schema_entry() {
    let mut s = empty_view("ds");
    s.define("arr", DType::Float64, &["x"], vec![4], None)
        .unwrap();
    assert!(s.view.schema(&s.meta).arrays().contains("arr"));
    s.delete("arr").unwrap();
    assert!(!s.view.schema(&s.meta).arrays().contains("arr"));
}

#[test]
fn view_array_meta_returns_schema_after_define() {
    let mut s = empty_view("ds");
    s.define("arr", DType::Float64, &["t"], vec![5], None)
        .unwrap();
    let meta = s.view.array_meta(&s.meta, "arr").unwrap();
    assert_eq!(meta.dtype, DType::Float64);
    assert_eq!(meta.shape, vec![5]);
}

#[test]
fn a_type_that_does_not_merge_warns_or_fails() {
    let existing = Some(DType::Int32);
    let check = |policy, new: DType| check_type_alignment(policy, "t", &existing, &new);
    assert_eq!(
        check(TypeMismatchPolicy::Error, DType::Float64).unwrap(),
        Alignment::Aligned
    );
    assert_eq!(
        check(TypeMismatchPolicy::Warn, DType::String).unwrap(),
        Alignment::Mismatched
    );
    let err = check(TypeMismatchPolicy::Error, DType::String).unwrap_err();
    assert!(matches!(err, Error::TypeMismatch { .. }));
    assert_eq!(
        err.message(),
        "type mismatch for 't': the collection holds Int32, not String"
    );
}

#[test]
fn a_refused_attribute_changes_nothing() {
    let mut meta = StoreMeta::default();
    let mut pending = PendingAttrs::new();
    let a = DatasetView::new("a", Codec::Zstd, TypeMismatchPolicy::Error);
    let b = DatasetView::new("b", Codec::Zstd, TypeMismatchPolicy::Error);
    a.set_attribute(&mut meta, &mut pending, "k", whole(1)).unwrap();
    assert!(b
        .set_attribute(&mut meta, &mut pending, "k", text("x"))
        .is_err());
    assert!(!meta.is_live("b"));
    assert_eq!(pending.get(GLOBAL_ATTRS_ARRAY, "b", "k"), None);
}

#[test]
fn only_live_datasets_open() {
    let mut meta = StoreMeta::default();
    meta.add_dataset("a");
    let policy = TypeMismatchPolicy::Warn;
    assert!(open_dataset_view(&meta, "a", Codec::Zstd, policy).is_ok());
    assert!(matches!(
        open_dataset_view(&meta, "b", Codec::Zstd, policy),
        Err(Error::DatasetNotFound(_))
    ));
    meta.unrecord_dataset("a");
    assert!(open_dataset_view(&meta, "a", Codec::Zstd, policy).is_err());
}

#[test]
fn a_buffered_value_wins_over_the_stored_one() {
    let mut s = empty_view("ds");
    let read = |s: &Store| {
        s.view
            .attribute_value(&s.pending, GLOBAL_ATTRS_ARRAY, "k", Some(whole(7)))
    };
    assert_eq!(read(&s), Some(whole(7)));
    s.set("k", whole(8));
    assert_eq!(read(&s), Some(whole(8)));
}

#[test]
fn an_array_has_a_file_of_its_own() {
    assert_eq!(array_file("wind"), "wind/data.af");
}
