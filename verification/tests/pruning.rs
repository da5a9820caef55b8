use atlas::config::Codec;
use atlas::error::Error;
use atlas::pruning::bitmap::Bitmap;
use atlas::pruning::column::{ColumnView, StatColumn};
use atlas::pruning::format::{
    finish_image, first_read, footer_from_suffix, read_footer, search_step, ColumnBlock,
    ColumnError, FooterRead, IndexImage, SearchStep,
};
use atlas::pruning::value::StatVal;
use atlas::pruning::{ColumnKey, PruningIndex};
use atlas::schema::attr::Attr;
use atlas::stats::ArrayStats;
use std::cmp::Ordering;

fn stats(min: i64, max: i64, rows: u64, nulls: u64) -> ArrayStats {
    ArrayStats {
        name: "x".to_string(),
        min: Some(StatVal::Int(min)),
        max: Some(StatVal::Int(max)),
        row_count: rows,
        null_count: nulls,
    }
}

fn float(v: f64) -> StatVal {
    StatVal::Float(v.to_bits())
}

fn index_with_rows(n: usize) -> PruningIndex {
    let mut index = PruningIndex::new();
    for _ in 0..n {
        index.push_row();
    }
    index
}

#[test]
fn rows_are_null_until_filled() {
    let mut index = index_with_rows(3);
    let key = ColumnKey::array("temp");
    index.ensure_column(&key);

    let column = index.column(&key).unwrap();
    assert_eq!(column.present.len(), 3);
    assert_eq!(column.present.count_set(), 0, "nothing declared yet");
    assert_eq!(column.stats_valid.count_set(), 0);
}

#[test]
fn late_column_is_back_filled() {
    let mut index = index_with_rows(100);
    let key = ColumnKey::array("rare");
    index.ensure_column(&key);
    index.set_stats(&key, 99, &stats(1, 2, 10, 0));

    let column = index.column(&key).unwrap();
    assert_eq!(column.present.len(), 100);
    assert_eq!(column.present.count_set(), 1);
    assert!(column.present.get(99));
    assert!(!column.present.get(0));

    let block = ColumnBlock::compact(column);
    assert_eq!(block.min.len(), 1);
    assert_eq!(block.row_count.len(), 1);
}

#[test]
fn push_row_extends_every_existing_column() {
    let mut index = index_with_rows(2);
    let a = ColumnKey::array("a");
    let b = ColumnKey::global_attr("b");
    index.ensure_column(&a);
    index.ensure_column(&b);
    index.push_row();

    assert_eq!(index.rows(), 3);
    for key in [&a, &b] {
        assert_eq!(index.column(key).unwrap().present.len(), 3);
    }
}

#[test]
fn reset_row_wipes_the_previous_occupant() {
    let mut index = index_with_rows(2);
    let key = ColumnKey::array("temp");
    index.ensure_column(&key);
    index.set_stats(&key, 0, &stats(5, 9, 4, 1));
    assert!(index.column(&key).unwrap().present.get(0));

    index.reset_row(0);
    let column = index.column(&key).unwrap();
    assert!(!column.present.get(0));
    assert!(!column.stats_valid.get(0));
    assert_eq!(column.min[0], None);
    assert_eq!(column.row_count[0], 0);
}

#[test]
fn pruning_values_keep_their_source_type() {
    let mut index = index_with_rows(2);
    let key = ColumnKey::array("mixed");
    index.ensure_column(&key);

    index.set_stats(&key, 0, &stats(-3, 7, 10, 0));
    index.set_stats(
        &key,
        1,
        &ArrayStats {
            name: "mixed".to_string(),
            min: Some(float(0.5)),
            max: Some(float(9.25)),
            row_count: 10,
            null_count: 0,
        },
    );

    let column = index.column(&key).unwrap();
    assert_eq!(column.min[0], Some(StatVal::Int(-3)), "int stays int");
    assert_eq!(column.min[1], Some(float(0.5)), "float stays float");
}

#[test]
fn absent_rows_have_zero_counts() {
    let mut index = index_with_rows(3);
    let key = ColumnKey::array("temp");
    index.ensure_column(&key);
    index.set_stats(&key, 1, &stats(1, 2, 42, 7));

    let column = index.column(&key).unwrap();
    assert_eq!(column.row_count, vec![0, 42, 0]);
    assert_eq!(column.null_count, vec![0, 7, 0]);
    assert!(!column.present.get(0) && !column.present.get(2));
}

#[test]
fn pruning_missing_range_keeps_counts() {
    let mut index = index_with_rows(1);
    let key = ColumnKey::array("listy");
    index.ensure_column(&key);
    index.set_stats(
        &key,
        0,
        &ArrayStats {
            name: "listy".to_string(),
            min: None,
            max: None,
            row_count: 6,
            null_count: 1,
        },
    );

    let column = index.column(&key).unwrap();
    assert!(column.present.get(0), "the dataset does declare it");
    assert!(!column.stats_valid.get(0), "but there is no range");
    assert_eq!(column.row_count[0], 6);
    assert_eq!(column.null_count[0], 1);
}

#[test]
fn pruning_summary_ignores_masked_rows() {
    let mut index = index_with_rows(3);
    let key = ColumnKey::array("t");
    index.ensure_column(&key);
    index.set_stats(&key, 0, &stats(10, 20, 1, 0));
    index.set_stats(&key, 1, &stats(-999, 999, 1, 0));
    index.set_stats(&key, 2, &stats(15, 25, 1, 0));

    let column = index.column(&key).unwrap();
    let all = column.summarize(&[true, true, true]);
    assert_eq!(all.min, Some(StatVal::Int(-999)));
    assert_eq!(all.max, Some(StatVal::Int(999)));
    assert_eq!(all.present_count, 3);

    let masked = column.summarize(&[true, false, true]);
    assert_eq!(
        masked.min,
        Some(StatVal::Int(10)),
        "a deleted dataset must not widen the global range"
    );
    assert_eq!(masked.max, Some(StatVal::Int(25)));
    assert_eq!(masked.present_count, 2);
}

// One value in a form the MessagePack crate writes without help.
type WireValue = (u8, i64, u64, Vec<u8>);
type WireBlock = (
    (Vec<u8>, usize),
    (Vec<u8>, usize),
    Vec<WireValue>,
    Vec<WireValue>,
    Vec<u64>,
    Vec<u64>,
);

fn to_wire(value: &StatVal) -> WireValue {
    match value {
        StatVal::Int(v) => (0, *v, 0, Vec::new()),
        StatVal::UInt(v) => (1, 0, *v, Vec::new()),
        StatVal::Float(v) => (2, 0, *v, Vec::new()),
        StatVal::Bytes(v) => (3, 0, 0, v.clone()),
        StatVal::TimestampNs(v) => (4, *v, 0, Vec::new()),
    }
}

fn from_wire(value: &WireValue) -> StatVal {
    match value.0 {
        0 => StatVal::Int(value.1),
        1 => StatVal::UInt(value.2),
        2 => StatVal::Float(value.2),
        3 => StatVal::Bytes(value.3.clone()),
        _ => StatVal::TimestampNs(value.1),
    }
}

fn block_to_bytes(block: &ColumnBlock) -> Vec<u8> {
    let wire: WireBlock = (
        (block.present.as_bytes().to_vec(), block.present.len()),
        (block.stats_valid.as_bytes().to_vec(), block.stats_valid.len()),
        block.min.iter().map(to_wire).collect(),
        block.max.iter().map(to_wire).collect(),
        block.row_count.clone(),
        block.null_count.clone(),
    );
    rmp_serde::to_vec(&wire).unwrap()
}

fn block_from_bytes(bytes: &[u8]) -> ColumnBlock {
    let wire: WireBlock = rmp_serde::from_slice(bytes).unwrap();
    ColumnBlock {
        present: Bitmap::from_bytes(&wire.0 .0, wire.0 .1).unwrap(),
        stats_valid: Bitmap::from_bytes(&wire.1 .0, wire.1 .1).unwrap(),
        min: wire.2.iter().map(from_wire).collect(),
        max: wire.3.iter().map(from_wire).collect(),
        row_count: wire.4,
        null_count: wire.5,
    }
}

// The blocks and the directory of an index; the directory stands for itself.
fn image_of(
    index: &PruningIndex,
    codec: Codec,
    live: &[bool],
) -> (Vec<u8>, atlas::pruning::format::IndexFooter) {
    let mut image = IndexImage::new();
    for key in index.column_keys() {
        let column = index.column(key).unwrap();
        let encoded = block_to_bytes(&ColumnBlock::compact(column));
        image
            .add_column(key.clone(), encoded, column.summarize(live), codec)
            .unwrap();
    }
    image.footer(index.rows(), index.meta_epoch(), codec)
}

#[test]
fn encode_decode_roundtrip() {
    let mut index = index_with_rows(5);
    let a = ColumnKey::array("temp");
    let b = ColumnKey::global_attr("cruise");
    index.ensure_column(&a);
    index.ensure_column(&b);
    index.set_stats(&a, 0, &stats(1, 9, 4, 1));
    index.set_stats(&a, 3, &stats(-2, 2, 4, 0));
    index.set_stats(
        &b,
        3,
        &ArrayStats {
            name: "cruise".to_string(),
            min: Some(StatVal::Bytes(b"CS6151".to_vec())),
            max: Some(StatVal::Bytes(b"CS6151".to_vec())),
            row_count: 1,
            null_count: 0,
        },
    );
    index.set_meta_epoch(7);

    let live = vec![true; 5];
    for codec in [Codec::Uncompressed, Codec::Zstd, Codec::Lz4] {
        let (bytes, footer) = image_of(&index, codec, &live);

        let mut back = PruningIndex::with_rows(footer.row_count);
        back.set_meta_epoch(footer.meta_epoch);
        for key in footer.keys() {
            let raw = footer.unpack_column_at(&bytes, &key).unwrap();
            back.insert_column(key, block_from_bytes(&raw).expand());
        }

        assert_eq!(back.rows(), 5);
        assert_eq!(back.meta_epoch(), 7);
        assert_eq!(back.column(&a).unwrap(), index.column(&a).unwrap());
        assert_eq!(back.column(&b).unwrap(), index.column(&b).unwrap());
    }
}

#[test]
fn decode_rejects_corrupt_input() {
    assert!(read_footer(b"tiny").is_err());
    let (blocks, _) = image_of(&index_with_rows(1), Codec::Uncompressed, &[true]);
    let mut bytes = finish_image(blocks, b"directory");
    assert!(read_footer(&bytes).is_ok());
    let last = bytes.len() - 1;
    bytes[last] ^= 0xff; // break the trailing magic
    assert!(read_footer(&bytes).is_err());
}

#[test]
fn bitmap_basics() {
    let mut bits = Bitmap::zeros(0);
    for i in 0..20 {
        bits.push(i % 3 == 0);
    }
    assert_eq!(bits.len(), 20);
    assert_eq!(bits.count_set(), 7);
    assert!(bits.get(0) && bits.get(3) && !bits.get(1));
    bits.set(1, true);
    assert!(bits.get(1));
    bits.set(0, false);
    assert!(!bits.get(0));
    assert!(!bits.get(100), "out of range reads as unset");
}

#[test]
fn set_get_and_count() {
    let mut bits = Bitmap::zeros(20);
    for i in 0..20 {
        bits.set(i, i % 3 == 0);
    }
    assert_eq!(bits.count_set(), 7);
    assert!(bits.get(0) && bits.get(3) && !bits.get(1));

    bits.set(1, true);
    assert!(bits.get(1));
    bits.set(0, false);
    assert!(!bits.get(0));
    assert!(!bits.get(100), "out of range reads as unset");
}

#[test]
fn set_beyond_length_is_ignored() {
    let mut bits = Bitmap::zeros(3);
    for i in 0..3 {
        bits.set(i, true);
    }
    assert_eq!(bits.count_set(), 3);
    // Setting beyond the length must not create phantom bits.
    bits.set(7, true);
    assert_eq!(bits.count_set(), 3);
}

#[test]
fn bitmap_bytes_read_back() {
    let mut bits = Bitmap::zeros(10);
    bits.set(0, true);
    bits.set(9, true);
    assert!(!bits.is_empty());
    assert_eq!(bits.as_bytes(), &[1u8, 2u8]);
    let back = Bitmap::from_bytes(bits.as_bytes(), 10).unwrap();
    assert!(back.get(0) && back.get(9) && !back.get(5));
    assert!(Bitmap::from_bytes(&[0], 10).is_none(), "too few bytes");
    bits.resize(12);
    assert_eq!((bits.len(), bits.count_set()), (12, 2));
    bits.resize(4);
    assert_eq!(bits.len(), 12, "a longer bitmap stays as it is");
}

fn column_of(rows: usize) -> StatColumn {
    StatColumn::new(rows)
}

#[test]
fn absent_rows_report_zero_counts() {
    let mut column = column_of(3);
    column.set_stats(1, &stats(1, 2, 42, 7));
    assert_eq!(column.row_count, vec![0, 42, 0]);
    assert_eq!(column.null_count, vec![0, 7, 0]);
}

#[test]
fn column_missing_range_keeps_counts() {
    let mut column = column_of(1);
    column.set_stats(
        0,
        &ArrayStats {
            name: "listy".to_string(),
            min: None,
            max: None,
            row_count: 6,
            null_count: 1,
        },
    );
    assert!(column.present.get(0), "the dataset does declare it");
    assert!(!column.stats_valid.get(0), "but there is no range");
    assert_eq!(column.row_count[0], 6);
}

#[test]
fn column_summary_ignores_masked_rows() {
    let mut column = column_of(3);
    column.set_stats(0, &stats(10, 20, 1, 0));
    column.set_stats(1, &stats(-999, 999, 1, 0));
    column.set_stats(2, &stats(15, 25, 1, 0));

    let all = column.summarize(&[true, true, true]);
    assert_eq!(all.min, Some(StatVal::Int(-999)));
    assert_eq!(all.present_count, 3);

    let masked = column.summarize(&[true, false, true]);
    assert_eq!(
        masked.min,
        Some(StatVal::Int(10)),
        "a deleted dataset must not widen the global range"
    );
    assert_eq!(masked.max, Some(StatVal::Int(25)));
    assert_eq!(masked.present_count, 2);
}

#[test]
fn view_hides_deleted_and_absent_rows() {
    let mut column = column_of(3);
    column.set_stats(0, &stats(1, 5, 10, 0));
    column.set_stats(1, &stats(100, 200, 10, 0));
    // row 2 left absent

    let live = [true, false, true];
    let view = ColumnView::new(&column, &live);

    assert!(view.is_present(0));
    assert!(!view.is_present(1), "deleted");
    assert!(!view.is_present(2), "never declared");

    assert_eq!(view.min(0), Some(&StatVal::Int(1)));
    assert_eq!(view.min(1), None, "deleted rows expose no statistics");
    assert_eq!(view.row_count(1), 0, "and no counts");
    assert_eq!(view.present_rows(), vec![0]);
}

#[test]
fn candidates_applies_all_three_masks() {
    let mut column = column_of(4);
    column.set_stats(0, &stats(1, 5, 10, 0));
    column.set_stats(1, &stats(1, 500, 10, 0));
    column.set_stats(2, &stats(1, 50, 10, 0));
    // row 3 absent

    let live = [true, false, true, true];
    let view = ColumnView::new(&column, &live);

    let hits = view.candidates(|_, hi| hi > &StatVal::Int(10));
    assert_eq!(hits, vec![2], "row 1 is deleted, row 3 has no data");
}

#[test]
fn summary_rules_out_a_whole_column() {
    let mut column = column_of(2);
    column.set_stats(0, &stats(1, 9, 5, 0));
    column.set_stats(1, &stats(2, 8, 5, 0));
    let summary = column.summarize(&[true, true]);

    assert!(
        !summary.might_match(|_, hi| hi > &StatVal::Int(100)),
        "nothing can match"
    );
    assert!(
        summary.might_match(|_, hi| hi > &StatVal::Int(5)),
        "worth reading"
    );
}

fn index_with_temp(rows: usize, cells: &[(usize, ArrayStats)]) -> PruningIndex {
    let mut column = StatColumn::new(rows);
    for (row, s) in cells {
        column.set_stats(*row, s);
    }
    let mut index = PruningIndex::with_rows(rows);
    index.insert_column(ColumnKey::array("temp"), column);
    index
}

#[test]
fn assembled_column_scatters_by_ordinal() {
    let index = index_with_temp(100, &[(99, stats(1, 2, 10, 0))]);
    let column = index.column(&ColumnKey::array("temp")).unwrap();
    assert_eq!(column.present_mask().iter().filter(|b| **b).count(), 1);
    assert!(column.present.get(99) && !column.present.get(0));
}

#[test]
fn mod_values_keep_their_source_type() {
    let index = index_with_temp(
        2,
        &[
            (0, stats(-3, 7, 10, 0)),
            (
                1,
                ArrayStats {
                    name: "temp".to_string(),
                    min: Some(float(0.5)),
                    max: Some(float(9.25)),
                    row_count: 10,
                    null_count: 0,
                },
            ),
        ],
    );
    let column = index.column(&ColumnKey::array("temp")).unwrap();
    assert_eq!(column.min[0], Some(StatVal::Int(-3)), "int stays int");
    assert_eq!(column.min[1], Some(float(0.5)), "float stays float");
}

#[test]
fn view_applies_the_live_mask() {
    let mut index = index_with_temp(3, &[(0, stats(1, 5, 2, 0)), (1, stats(100, 200, 2, 0))]);
    index.set_live(vec![true, false, true]);

    let view = index.view(&ColumnKey::array("temp")).unwrap();
    assert_eq!(view.present_rows(), vec![0]);
    assert_eq!(
        view.candidates(|_, hi| hi > &StatVal::Int(50)),
        Vec::<usize>::new()
    );
}

#[test]
fn compares_within_a_variant() {
    assert_eq!(
        StatVal::Int(1).partial_cmp(&StatVal::Int(2)),
        Some(Ordering::Less)
    );
    assert_eq!(
        StatVal::Bytes(b"apple".to_vec()).partial_cmp(&StatVal::Bytes(b"pear".to_vec())),
        Some(Ordering::Less),
        "byte comparison is lexicographic"
    );
}

#[test]
fn mismatched_variants_are_incomparable() {
    assert_eq!(
        StatVal::Int(1).partial_cmp(&StatVal::Bytes(b"x".to_vec())),
        None
    );
    // ...and folding keeps the first rather than picking arbitrarily.
    assert_eq!(
        StatVal::Int(1).min_with(StatVal::Bytes(b"x".to_vec())),
        StatVal::Int(1)
    );
}

#[test]
fn nan_does_not_poison_ordering() {
    let nan = float(f64::NAN);
    assert!(nan.partial_cmp(&float(1.0)).is_some());
    assert_eq!(float(1.0).min_with(nan), float(1.0));
}

#[test]
fn folds_pick_the_extreme() {
    assert_eq!(StatVal::Int(5).min_with(StatVal::Int(2)), StatVal::Int(2));
    assert_eq!(StatVal::Int(5).max_with(StatVal::Int(2)), StatVal::Int(5));
}

#[test]
fn floats_order_by_value_not_by_bits() {
    assert_eq!(float(-2.0).partial_cmp(&float(-1.0)), Some(Ordering::Less));
    assert_eq!(float(-0.5).partial_cmp(&float(0.25)), Some(Ordering::Less));
    assert_eq!(
        float(3.5).partial_cmp(&float(3.5)),
        Some(Ordering::Equal)
    );
}

#[test]
fn attributes_give_scalar_statistics() {
    assert_eq!(
        StatVal::scalar_from_attribute(&Attr::Bool(true), 0),
        Some(StatVal::UInt(1))
    );
    assert_eq!(
        StatVal::scalar_from_attribute(&Attr::Int8(-4), 0),
        Some(StatVal::Int(-4))
    );
    assert_eq!(
        StatVal::scalar_from_attribute(&Attr::String("ab".to_string()), 0),
        Some(StatVal::Bytes(b"ab".to_vec()))
    );
    assert_eq!(
        StatVal::scalar_from_attribute(&Attr::BoolList(vec![true]), 0),
        None
    );
}

#[test]
fn only_the_requested_columns_are_located() {
    let mut index = PruningIndex::with_rows(2);
    for name in ["a", "b", "c"] {
        let key = ColumnKey::array(name);
        index.ensure_column(&key);
        index.set_stats(&key, 0, &stats(0, 1, 1, 0));
    }
    let (_, footer) = image_of(&index, Codec::Uncompressed, &[true, true]);
    let ranges = footer.ranges_for(&[ColumnKey::array("b"), ColumnKey::array("missing")]);
    assert_eq!(ranges.len(), 1);
    assert_eq!(ranges[0].0, ColumnKey::array("b"));
    assert!(ranges[0].1 < ranges[0].2);
    assert!(matches!(
        footer.unpack_column(&ColumnKey::array("missing"), &[]),
        Err(ColumnError::Index(Error::CorruptIndex(_)))
    ));
}

#[test]
fn a_stale_epoch_is_refused() {
    let mut index = index_with_rows(3);
    index.set_meta_epoch(5);
    let (_, footer) = image_of(&index, Codec::Zstd, &[true, true, true]);
    assert!(footer.check_version().is_ok());
    assert!(footer.check_epoch(5).is_ok());
    let message = footer.check_epoch(6).unwrap_err().message();
    assert!(message.contains("stale"), "got {message}");
}

#[test]
fn summaries_reflect_the_live_rows() {
    let mut index = index_with_rows(3);
    let key = ColumnKey::array("temp");
    index.ensure_column(&key);
    index.set_stats(&key, 0, &stats(1, 5, 4, 0));
    index.set_stats(&key, 2, &stats(-2, 2, 4, 0));
    let (_, footer) = image_of(&index, Codec::Zstd, &[true, true, false]);
    let summaries = footer.summaries();
    assert_eq!(summaries.len(), 1);
    assert_eq!(summaries[0].1.present_count, 1, "only row 0 is live");
    assert_eq!(summaries[0].1.min, Some(StatVal::Int(1)));
}

#[test]
fn a_footer_is_found_in_one_read_or_two() {
    let bytes = finish_image(vec![7; 100], b"0123456789");
    let len = bytes.len() as u64;
    assert_eq!(first_read(len), len);
    assert_eq!(first_read(1_000_000), 262_144);
    assert_eq!(
        footer_from_suffix(&bytes[bytes.len() - 15..], len).unwrap(),
        FooterRead::NeedMore(22)
    );
    assert_eq!(
        search_step(false, &bytes[bytes.len() - 15..], len).unwrap(),
        SearchStep::ReadAgain(22)
    );
    assert!(search_step(true, &bytes[bytes.len() - 15..], len).is_err());
    assert_eq!(
        search_step(true, &bytes[bytes.len() - 22..], len).unwrap(),
        SearchStep::Found { start: 0, end: 10 }
    );
    assert_eq!(read_footer(&bytes).unwrap(), (100, 110));
    assert!(footer_from_suffix(&bytes[bytes.len() - 15..], 20).is_err());
    assert!(footer_from_suffix(b"short", 5).is_err());
}

#[test]
fn a_cleared_row_reads_as_absent() {
    let mut column = column_of(2);
    column.set_stats(0, &stats(1, 2, 3, 0));
    column.set_stats(1, &stats(4, 5, 6, 1));
    column.clear_row(0);
    assert!(!column.present.get(0));
    assert_eq!(column.max[1], Some(StatVal::Int(5)));
    assert_eq!(column.null_count, vec![0, 1]);
}

#[test]
fn columns_are_labelled_by_what_they_describe() {
    assert_eq!(ColumnKey::array("t").label(), "t");
    assert_eq!(ColumnKey::global_attr("k").label(), "k");
    assert_eq!(ColumnKey::array_attr("t", "units").label(), "t:units");
}

#[test]
fn rows_carry_their_dataset_names() {
    let mut index = index_with_rows(2);
    index.set_dataset_names(vec![Some("a".to_string()), None]);
    assert_eq!(index.dataset_name(0), Some("a"));
    assert_eq!(index.dataset_name(1), None);
    assert_eq!(index.dataset_name(2), None);
    assert_eq!(index.dataset_names().len(), 2);
}

#[test]
fn bitmaps_are_equal_where_their_bits_are() {
    let mut set = Bitmap::zeros(10);
    set.set(3, true);
    let mut pushed = Bitmap::zeros(0);
    for i in 0..10 {
        pushed.push(i == 3);
    }
    assert!(set.same(&pushed));
    assert_eq!(set, pushed);
    assert_eq!(set.as_bytes(), pushed.as_bytes());

    // A bit that was set and cleared leaves no trace.
    pushed.set(9, true);
    assert_ne!(set, pushed);
    pushed.set(9, false);
    assert_eq!(set, pushed);

    // Bits past the length are not part of the map.
    let padded = Bitmap::from_bytes(&[0b0000_1000, 0b1111_1100], 10).unwrap();
    assert_eq!(set, padded);
    assert_eq!(padded.count_set(), 1);
    assert_ne!(Bitmap::zeros(10), Bitmap::zeros(11));
}

#[test]
fn a_column_key_is_shown_with_its_names_escaped() {
    let (_, footer) = image_of(&index_with_rows(1), Codec::Zstd, &[true]);
    let report = |key: &ColumnKey| match footer.unpack_column(key, &[]) {
        Err(ColumnError::Index(e)) => e.message(),
        other => panic!("{other:?}"),
    };
    let quoted = ColumnKey::array("a\"b");
    assert!(report(&quoted).ends_with(r#"no such pruning column: Array("a\"b")"#));
    let slashed = ColumnKey::array_attr("t\\x", "line\n");
    assert!(report(&slashed).ends_with(r#"no such pruning column: ArrayAttr("t\\x", "line\n")"#));
    let plain = ColumnKey::global_attr("month");
    assert!(report(&plain).ends_with(r#"no such pruning column: GlobalAttr("month")"#));
}

#[test]
fn only_ranges_are_put_to_the_question() {
    let mut column = column_of(3);
    column.set_stats(0, &stats(1, 5, 10, 0));
    let mut bare = stats(0, 0, 4, 4);
    bare.min = None;
    bare.max = None;
    column.set_stats(1, &bare);
    let live = [true, true, true];
    let view = ColumnView::new(&column, &live);
    // Row 1 is declared without a range, row 2 is not declared.
    let hits = view.candidates(|lo, hi| {
        assert_eq!((lo, hi), (&StatVal::Int(1), &StatVal::Int(5)));
        true
    });
    assert_eq!(hits, vec![0]);
}
