//! How a column of per-row statistics is handed out: as one dense array of a
//! single type.

use crate::pruning::value::{StatModel, StatVal};
use crate::pruning::ColumnKey;
use crate::text::texts;
use vstd::prelude::*;

verus! {

/// One cell of a column of doubles. The number becomes a double where it is
/// handed out; a missing one becomes NaN.
#[derive(Debug, Clone, Copy, PartialEq, Eq, Structural)]
pub enum FloatCell {
    /// A double, as its bits.
    Bits(u64),
    /// A signed number.
    Signed(i64),
    /// An unsigned number.
    Unsigned(u64),
    /// No value.
    Missing,
}

/// The cells of a column.
#[derive(Debug)]
pub enum Cells {
    /// Raw bytes, or nothing.
    Bytes(Vec<Option<Vec<u8>>>),
    /// Doubles.
    Floats(Vec<FloatCell>),
    /// Unsigned numbers.
    Unsigned(Vec<u64>),
    /// Signed numbers.
    Signed(Vec<i64>),
}

/// What the cells of a column hold.
#[verifier::ext_equal]
pub enum CellsModel {
    /// Raw bytes, or nothing.
    Bytes(Seq<Option<Seq<u8>>>),
    /// Doubles.
    Floats(Seq<FloatCell>),
    /// Unsigned numbers.
    Unsigned(Seq<u64>),
    /// Signed numbers.
    Signed(Seq<i64>),
}

/// The bytes of an optional value.
pub open spec fn raw(value: Option<Vec<u8>>) -> Option<Seq<u8>> {
    match value {
        Some(b) => Some(b@),
        None => None,
    }
}

impl View for Cells {
    type V = CellsModel;

    open spec fn view(&self) -> CellsModel {
        match *self {
            Cells::Bytes(list) => CellsModel::Bytes(Seq::new(list@.len(), |i: int| raw(list@[i]))),
            Cells::Floats(list) => CellsModel::Floats(list@),
            Cells::Unsigned(list) => CellsModel::Unsigned(list@),
            Cells::Signed(list) => CellsModel::Signed(list@),
        }
    }
}

/// What each row of a column holds.
pub open spec fn rows_of(values: Seq<Option<StatVal>>) -> Seq<Option<StatModel>> {
    Seq::new(
        values.len(),
        |i: int|
            match values[i] {
                Some(v) => Some(v@),
                None => None,
            },
    )
}

/// Some row holds raw bytes.
pub open spec fn any_bytes(rows: Seq<Option<StatModel>>) -> bool {
    exists|i: int| 0 <= i < rows.len() && #[trigger] rows[i] is Some && rows[i]->Some_0 is Bytes
}

/// Some row holds a double.
pub open spec fn any_float(rows: Seq<Option<StatModel>>) -> bool {
    exists|i: int| 0 <= i < rows.len() && #[trigger] rows[i] is Some && rows[i]->Some_0 is Float
}

/// Some row holds an unsigned number.
pub open spec fn any_unsigned(rows: Seq<Option<StatModel>>) -> bool {
    exists|i: int| 0 <= i < rows.len() && #[trigger] rows[i] is Some && rows[i]->Some_0 is UInt
}

/// The cell of a row in a column of bytes.
pub open spec fn bytes_cell(row: Option<StatModel>) -> Option<Seq<u8>> {
    match row {
        Some(StatModel::Bytes(b)) => Some(b),
        _ => None,
    }
}

/// The cell of a row in a column of doubles.
pub open spec fn float_cell(row: Option<StatModel>) -> FloatCell {
    match row {
        Some(StatModel::Float(bits)) => FloatCell::Bits(bits),
        Some(StatModel::Int(n)) => FloatCell::Signed(n),
        Some(StatModel::UInt(n)) => FloatCell::Unsigned(n),
        Some(StatModel::TimestampNs(n)) => FloatCell::Signed(n),
        _ => FloatCell::Missing,
    }
}

/// The cell of a row in a column of unsigned numbers. A negative number reads
/// as zero.
pub open spec fn unsigned_cell(row: Option<StatModel>) -> u64 {
    match row {
        Some(StatModel::UInt(n)) => n,
        Some(StatModel::Int(n)) => if n < 0 {
            0
        } else {
            n as u64
        },
        _ => 0,
    }
}

/// The cell of a row in a column of signed numbers.
pub open spec fn signed_cell(row: Option<StatModel>) -> i64 {
    match row {
        Some(StatModel::Int(n)) => n,
        Some(StatModel::TimestampNs(n)) => n,
        _ => 0,
    }
}

/// The cells of a column. The type follows from the values: any raw bytes make
/// it a column of bytes, else any double one of doubles, else any unsigned
/// number one of unsigned numbers. A row without a value reads as zero, or as
/// no value where the type has one.
pub open spec fn cells_of(rows: Seq<Option<StatModel>>) -> CellsModel {
    if any_bytes(rows) {
        CellsModel::Bytes(Seq::new(rows.len(), |i: int| bytes_cell(rows[i])))
    } else if any_float(rows) {
        CellsModel::Floats(Seq::new(rows.len(), |i: int| float_cell(rows[i])))
    } else if any_unsigned(rows) {
        CellsModel::Unsigned(Seq::new(rows.len(), |i: int| unsigned_cell(rows[i])))
    } else {
        CellsModel::Signed(Seq::new(rows.len(), |i: int| signed_cell(rows[i])))
    }
}

fn bytes_cells(values: &Vec<Option<StatVal>>) -> (list: Vec<Option<Vec<u8>>>)
    ensures
        list@.len() == values@.len(),
        forall|i: int|
            0 <= i < values@.len() ==> raw(#[trigger] list@[i]) == bytes_cell(rows_of(values@)[i]),
{
    let mut list: Vec<Option<Vec<u8>>> = Vec::new();
    let mut i: usize = 0;
    while i < values.len()
        invariant
            i <= values@.len(),
            list@.len() == i,
            forall|j: int|
                0 <= j < i ==> raw(#[trigger] list@[j]) == bytes_cell(rows_of(values@)[j]),
        decreases values@.len() - i,
    {
        let cell: Option<Vec<u8>> = match &values[i] {
            Some(StatVal::Bytes(b)) => Some(b.clone()),
            _ => None,
        };
        assert(raw(cell) == bytes_cell(rows_of(values@)[i as int]));
        list.push(cell);
        i += 1;
    }
    list
}

/// Expands the per-row values of a column into the cells of a dense array.
pub fn stat_vec_to_cells(values: &Vec<Option<StatVal>>) -> (cells: Cells)
    ensures
        cells@ == cells_of(rows_of(values@)),
{
    let ghost rows = rows_of(values@);
    let mut has_bytes: bool = false;
    let mut has_float: bool = false;
    let mut has_unsigned: bool = false;
    let mut i: usize = 0;
    while i < values.len()
        invariant
            i <= values@.len(),
            rows == rows_of(values@),
            has_bytes == any_bytes(rows.take(i as int)),
            has_float == any_float(rows.take(i as int)),
            has_unsigned == any_unsigned(rows.take(i as int)),
        decreases values@.len() - i,
    {
        proof {
            lemma_one_more_row(rows, i as int);
        }
        match &values[i] {
            Some(StatVal::Bytes(_)) => has_bytes = true,
            Some(StatVal::Float(_)) => has_float = true,
            Some(StatVal::UInt(_)) => has_unsigned = true,
            _ => {},
        }
        i += 1;
    }
    assert(rows.take(rows.len() as int) =~= rows);
    if has_bytes {
        let cells = Cells::Bytes(bytes_cells(values));
        assert(cells@ =~= cells_of(rows));
        return cells;
    }
    if has_float {
        let mut list: Vec<FloatCell> = Vec::new();
        let mut i: usize = 0;
        while i < values.len()
            invariant
                i <= values@.len(),
                rows == rows_of(values@),
                list@.len() == i,
                forall|j: int| 0 <= j < i ==> #[trigger] list@[j] == float_cell(rows[j]),
            decreases values@.len() - i,
        {
            let cell: FloatCell = match &values[i] {
                Some(StatVal::Float(bits)) => FloatCell::Bits(*bits),
                Some(StatVal::Int(n)) => FloatCell::Signed(*n),
                Some(StatVal::UInt(n)) => FloatCell::Unsigned(*n),
                Some(StatVal::TimestampNs(n)) => FloatCell::Signed(*n),
                _ => FloatCell::Missing,
            };
            assert(cell == float_cell(rows[i as int]));
            list.push(cell);
            i += 1;
        }
        let cells = Cells::Floats(list);
        assert(cells@ =~= cells_of(rows));
        return cells;
    }
    if has_unsigned {
        let mut list: Vec<u64> = Vec::new();
        let mut i: usize = 0;
        while i < values.len()
            invariant
                i <= values@.len(),
                rows == rows_of(values@),
                list@.len() == i,
                forall|j: int| 0 <= j < i ==> #[trigger] list@[j] == unsigned_cell(rows[j]),
            decreases values@.len() - i,
        {
            let cell: u64 = match &values[i] {
                Some(StatVal::UInt(n)) => *n,
                Some(StatVal::Int(n)) => if *n < 0 {
                    0
                } else {
                    *n as u64
                },
                _ => 0,
            };
            assert(cell == unsigned_cell(rows[i as int]));
            list.push(cell);
            i += 1;
        }
        let cells = Cells::Unsigned(list);
        assert(cells@ =~= cells_of(rows));
        return cells;
    }
    let mut list: Vec<i64> = Vec::new();
    let mut i: usize = 0;
    while i < values.len()
        invariant
            i <= values@.len(),
            rows == rows_of(values@),
            list@.len() == i,
            forall|j: int| 0 <= j < i ==> #[trigger] list@[j] == signed_cell(rows[j]),
        decreases values@.len() - i,
    {
        let cell: i64 = match &values[i] {
            Some(StatVal::Int(n)) => *n,
            Some(StatVal::TimestampNs(n)) => *n,
            _ => 0,
        };
        assert(cell == signed_cell(rows[i as int]));
        list.push(cell);
        i += 1;
    }
    let cells = Cells::Signed(list);
    assert(cells@ =~= cells_of(rows));
    cells
}

proof fn lemma_one_more_row(rows: Seq<Option<StatModel>>, i: int)
    requires
        0 <= i < rows.len(),
    ensures
        any_bytes(rows.take(i + 1)) == (any_bytes(rows.take(i)) || (rows[i] is Some
            && rows[i]->Some_0 is Bytes)),
        any_float(rows.take(i + 1)) == (any_float(rows.take(i)) || (rows[i] is Some
            && rows[i]->Some_0 is Float)),
        any_unsigned(rows.take(i + 1)) == (any_unsigned(rows.take(i)) || (rows[i] is Some
            && rows[i]->Some_0 is UInt)),
{
    let more = rows.take(i + 1);
    let less = rows.take(i);
    assert(more[i] == rows[i]);
    assert(forall|j: int| 0 <= j < i ==> #[trigger] less[j] == more[j]);
    assert(forall|j: int| 0 <= j < i ==> #[trigger] more[j] == less[j]);
}

/// A column hands out one cell for every row.
pub proof fn law_a_cell_for_every_row(rows: Seq<Option<StatModel>>)
    ensures
        match cells_of(rows) {
            CellsModel::Bytes(list) => list.len() == rows.len(),
            CellsModel::Floats(list) => list.len() == rows.len(),
            CellsModel::Unsigned(list) => list.len() == rows.len(),
            CellsModel::Signed(list) => list.len() == rows.len(),
        },
{
}

/// What the columns of a request are: the arrays, then the attributes of
/// datasets, then those of arrays.
pub open spec fn requested(
    arrays: Seq<Seq<char>>,
    global_attrs: Seq<Seq<char>>,
    array_attrs: Seq<(Seq<char>, Seq<char>)>,
) -> Seq<ColumnKey<Seq<char>>> {
    Seq::new(arrays.len(), |i: int| ColumnKey::Array(arrays[i])) + Seq::new(
        global_attrs.len(),
        |i: int| ColumnKey::GlobalAttr(global_attrs[i]),
    ) + Seq::new(
        array_attrs.len(),
        |i: int| ColumnKey::ArrayAttr(array_attrs[i].0, array_attrs[i].1),
    )
}

/// The characters of pairs of names.
pub open spec fn pairs(list: Seq<(String, String)>) -> Seq<(Seq<char>, Seq<char>)> {
    Seq::new(list.len(), |i: int| (list[i].0@, list[i].1@))
}

/// What some keys are.
pub open spec fn keys_of(list: Seq<ColumnKey>) -> Seq<ColumnKey<Seq<char>>> {
    Seq::new(list.len(), |i: int| list[i]@)
}

/// Lists the columns of a request.
pub fn column_keys(
    arrays: &Vec<String>,
    global_attrs: &Vec<String>,
    array_attrs: &Vec<(String, String)>,
) -> (keys: Vec<ColumnKey>)
    ensures
        keys_of(keys@) == requested(texts(arrays@), texts(global_attrs@), pairs(array_attrs@)),
{
    let mut keys: Vec<ColumnKey> = Vec::new();
    let ghost all = requested(texts(arrays@), texts(global_attrs@), pairs(array_attrs@));
    let mut i: usize = 0;
    while i < arrays.len()
        invariant
            i <= arrays@.len(),
            all == requested(texts(arrays@), texts(global_attrs@), pairs(array_attrs@)),
            keys_of(keys@) == all.take(i as int),
        decreases arrays@.len() - i,
    {
        let ghost before = keys@;
        keys.push(ColumnKey::Array(arrays[i].clone()));
        proof {
            let at = i as int;
            assert(keys@.last()@ == all[at]);
            assert(keys_of(keys@) =~= keys_of(before).push(keys@.last()@));
            assert(all.take(at + 1) =~= all.take(at).push(all[at]));
        }
        i += 1;
    }
    let mut i: usize = 0;
    while i < global_attrs.len()
        invariant
            i <= global_attrs@.len(),
            all == requested(texts(arrays@), texts(global_attrs@), pairs(array_attrs@)),
            keys_of(keys@) == all.take(arrays@.len() + i),
        decreases global_attrs@.len() - i,
    {
        let ghost before = keys@;
        keys.push(ColumnKey::GlobalAttr(global_attrs[i].clone()));
        proof {
            let at = arrays@.len() + i;
            assert(keys@.last()@ == all[at]);
            assert(keys_of(keys@) =~= keys_of(before).push(keys@.last()@));
            assert(all.take(at + 1) =~= all.take(at).push(all[at]));
        }
        i += 1;
    }
    let mut i: usize = 0;
    while i < array_attrs.len()
        invariant
            i <= array_attrs@.len(),
            all == requested(texts(arrays@), texts(global_attrs@), pairs(array_attrs@)),
            keys_of(keys@) == all.take(arrays@.len() + global_attrs@.len() + i),
        decreases array_attrs@.len() - i,
    {
        let ghost before = keys@;
        keys.push(ColumnKey::ArrayAttr(array_attrs[i].0.clone(), array_attrs[i].1.clone()));
        proof {
            let at = arrays@.len() + global_attrs@.len() + i;
            assert(keys@.last()@ == all[at]);
            assert(keys_of(keys@) =~= keys_of(before).push(keys@.last()@));
            assert(all.take(at + 1) =~= all.take(at).push(all[at]));
        }
        i += 1;
    }
    assert(all.take(all.len() as int) =~= all);
    keys
}

/// The whole number a row holds, where it holds one.
pub open spec fn whole_of(row: Option<StatModel>) -> Option<int> {
    match row {
        Some(StatModel::Int(n)) | Some(StatModel::TimestampNs(n)) => Some(n as int),
        Some(StatModel::UInt(n)) => Some(n as int),
        _ => None,
    }
}

/// A cell holds the value of its own row. Bytes are handed out as they are, a
/// double by its bits, a whole number as that number. A row without a value is
/// missing where the type can say so, and else zero. A negative number among
/// unsigned ones is zero.
pub proof fn law_a_cell_holds_the_value_of_its_row(rows: Seq<Option<StatModel>>, i: int)
    requires
        0 <= i < rows.len(),
    ensures
        match cells_of(rows) {
            CellsModel::Bytes(list) => match rows[i] {
                Some(StatModel::Bytes(bytes)) => list[i] == Some(bytes),
                _ => list[i] is None,
            },
            CellsModel::Floats(list) => match list[i] {
                FloatCell::Bits(bits) => rows[i] == Some(StatModel::Float(bits)),
                FloatCell::Signed(n) => rows[i] == Some(StatModel::Int(n)) || rows[i] == Some(
                    StatModel::TimestampNs(n),
                ),
                FloatCell::Unsigned(n) => rows[i] == Some(StatModel::UInt(n)),
                FloatCell::Missing => rows[i] is None,
            },
            CellsModel::Unsigned(list) => match rows[i] {
                Some(StatModel::UInt(n)) => list[i] == n,
                Some(StatModel::Int(n)) => if n < 0 {
                    list[i] == 0
                } else {
                    list[i] == n
                },
                _ => list[i] == 0,
            },
            CellsModel::Signed(list) => match whole_of(rows[i]) {
                Some(n) => list[i] == n,
                None => list[i] == 0,
            },
        },
{
    assert(rows[i] is Some || rows[i] is None);
}

/// The type of a column follows from its rows: bytes before doubles, doubles
/// before unsigned numbers, and signed numbers where there is none of these.
pub proof fn law_the_type_of_a_column_follows_from_its_rows(
    rows: Seq<Option<StatModel>>,
    i: int,
)
    requires
        0 <= i < rows.len(),
    ensures
        rows[i] matches Some(StatModel::Bytes(_)) ==> cells_of(rows) is Bytes,
        rows[i] matches Some(StatModel::Float(_)) ==> cells_of(rows) is Bytes || cells_of(rows)
            is Floats,
        rows[i] matches Some(StatModel::UInt(_)) ==> !(cells_of(rows) is Signed),
        cells_of(rows) is Bytes ==> exists|k: int|
            0 <= k < rows.len() && #[trigger] rows[k] is Some && rows[k].unwrap() is Bytes,
        cells_of(rows) is Floats ==> exists|k: int|
            0 <= k < rows.len() && #[trigger] rows[k] is Some && rows[k].unwrap() is Float,
        cells_of(rows) is Unsigned ==> exists|k: int|
            0 <= k < rows.len() && #[trigger] rows[k] is Some && rows[k].unwrap() is UInt,
{
    assert(rows[i] is Some || rows[i] is None);
}

/// A request lists its arrays, then its dataset attributes, then its array
/// attributes, each in the order given.
pub proof fn law_requests_keep_their_order(
    arrays: Seq<Seq<char>>,
    global_attrs: Seq<Seq<char>>,
    array_attrs: Seq<(Seq<char>, Seq<char>)>,
    i: int,
)
    ensures
        ({
            let all = requested(arrays, global_attrs, array_attrs);
            let first = arrays.len() as int;
            let second = first + global_attrs.len();
            &&& all.len() == second + array_attrs.len()
            &&& 0 <= i < arrays.len() ==> all[i] == ColumnKey::Array(arrays[i])
            &&& 0 <= i < global_attrs.len() ==> all[first + i] == ColumnKey::GlobalAttr(
                global_attrs[i],
            )
            &&& 0 <= i < array_attrs.len() ==> all[second + i] == ColumnKey::ArrayAttr(
                array_attrs[i].0,
                array_attrs[i].1,
            )
        }),
{
}

} // verus!
