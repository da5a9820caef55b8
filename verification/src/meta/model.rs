//! What a store's metadata says, and how the type index relates to it.

use crate::config::Codec;
use crate::meta::schema::{
    array_type, attrs_of, distinct_names, first_wins, lemma_with_array_attr, no_schema,
    with_array_attr, ArraySchemaModel, DatasetModel,
};
use crate::meta::type_index::{
    answer_of, distinct_entries, entry_of, indexed, lemma_added, lemma_indexed, no_index, raised,
    tracks, Constraint, IndexModel, MergedType,
};
use crate::pruning::ColumnKey;
use crate::schema::dtype::{align, law_alignment_is_an_equivalence, widened, DType};
use crate::table::{
    has_key, key_index, keys_distinct, law_get_after_set, lemma_key_index, value_of, with_entry,
};
use vstd::prelude::*;

verus! {

/// The metadata of a store.
#[verifier::ext_equal]
pub struct StoreModel {
    /// Store format version.
    pub version: u32,
    /// Codec used when new arrays are defined.
    pub codec: Codec,
    /// Counter that grows with every save.
    pub meta_epoch: u64,
    /// Dataset name and schema, by ordinal, tombstones included.
    pub datasets: Seq<(Seq<char>, DatasetModel)>,
    /// Whether each dataset is live.
    pub live: Seq<bool>,
    /// The type index.
    pub index: IndexModel,
}

/// The type a dataset gives a key.
pub open spec fn type_in(m: DatasetModel, key: ColumnKey<Seq<char>>) -> Option<DType> {
    match key {
        ColumnKey::Array(a) => array_type(m, a),
        ColumnKey::GlobalAttr(k) => value_of(m.global_attrs, k),
        ColumnKey::ArrayAttr(a, k) => value_of(attrs_of(m, a), k),
    }
}

/// The ordinals of the live datasets among the first `n`.
pub open spec fn live_rows(live: Seq<bool>, n: int) -> Seq<int>
    decreases n,
{
    if n <= 0 {
        Seq::empty()
    } else if live[n - 1] {
        live_rows(live, n - 1).push(n - 1)
    } else {
        live_rows(live, n - 1)
    }
}

/// The entries of the live datasets among the first `n`.
pub open spec fn live_entries(
    datasets: Seq<(Seq<char>, DatasetModel)>,
    live: Seq<bool>,
    n: int,
) -> Seq<(Seq<char>, DatasetModel)>
    decreases n,
{
    if n <= 0 {
        Seq::empty()
    } else if live[n - 1] {
        live_entries(datasets, live, n - 1).push(datasets[n - 1])
    } else {
        live_entries(datasets, live, n - 1)
    }
}

/// The types that the live datasets among the first `n` give a key.
pub open spec fn types_of(
    datasets: Seq<(Seq<char>, DatasetModel)>,
    live: Seq<bool>,
    key: ColumnKey<Seq<char>>,
    n: int,
) -> Seq<DType>
    decreases n,
{
    if n <= 0 {
        Seq::empty()
    } else {
        let front = types_of(datasets, live, key, n - 1);
        match type_in(datasets[n - 1].1, key) {
            Some(ty) => if live[n - 1] {
                front.push(ty)
            } else {
                front
            },
            None => front,
        }
    }
}

/// The merged type of a key over the live datasets among the first `n`, but
/// for one. The first type wins over one that does not merge with it.
pub open spec fn scan_of(
    datasets: Seq<(Seq<char>, DatasetModel)>,
    live: Seq<bool>,
    exclude: Seq<char>,
    key: ColumnKey<Seq<char>>,
    n: int,
) -> Option<DType>
    decreases n,
{
    if n <= 0 {
        None
    } else {
        let front = scan_of(datasets, live, exclude, key, n - 1);
        if live[n - 1] && datasets[n - 1].0 != exclude {
            match type_in(datasets[n - 1].1, key) {
                Some(ty) => Some(
                    match front {
                        Some(a) => first_wins(a, ty),
                        None => ty,
                    },
                ),
                None => front,
            }
        } else {
            front
        }
    }
}

/// A live dataset declares a key.
pub open spec fn declares(m: StoreModel, dataset: Seq<char>, key: ColumnKey<Seq<char>>) -> bool {
    &&& has_key(m.datasets, dataset)
    &&& m.live[key_index(m.datasets, dataset)]
    &&& type_in(m.datasets[key_index(m.datasets, dataset)].1, key) is Some
}

/// The type that a write of a key from `exclude` must merge with.
pub open spec fn other_type(m: StoreModel, exclude: Seq<char>, key: ColumnKey<Seq<char>>) -> Option<
    DType,
> {
    match answer_of(m.index, key, declares(m, exclude, key)) {
        None => None,
        Some(Constraint::Unconstrained) => None,
        Some(Constraint::Type(d)) => Some(d),
        Some(Constraint::NeedsScan) => scan_of(
            m.datasets,
            m.live,
            exclude,
            key,
            m.datasets.len() as int,
        ),
    }
}

/// Whether a type may be written where `other` is what it must merge with.
pub open spec fn accepts(other: Option<DType>, ty: DType) -> bool {
    match other {
        Some(d) => align(d, ty),
        None => true,
    }
}

/// The index stands for what the live datasets declare.
pub open spec fn in_step(
    datasets: Seq<(Seq<char>, DatasetModel)>,
    live: Seq<bool>,
    ix: IndexModel,
) -> bool {
    &&& distinct_entries(ix)
    &&& forall|key: ColumnKey<Seq<char>>|
        tracks(
            #[trigger] entry_of(ix, key),
            types_of(datasets, live, key, datasets.len() as int),
        )
}

/// A store whose parts agree.
pub open spec fn sound(m: StoreModel) -> bool {
    &&& m.live.len() == m.datasets.len()
    &&& keys_distinct(m.datasets)
    &&& forall|i: int|
        0 <= i < m.datasets.len() ==> distinct_names((#[trigger] m.datasets[i]).1)
    &&& in_step(m.datasets, m.live, m.index)
}

/// Whether the excluded dataset declares the key among the first `n`.
spec fn own(m: StoreModel, exclude: Seq<char>, key: ColumnKey<Seq<char>>, n: int) -> nat {
    if declares(m, exclude, key) && key_index(m.datasets, exclude) < n {
        1
    } else {
        0
    }
}

/// The scan finds something exactly where another dataset declares the key,
/// and what it finds merges with what all types merge with.
proof fn lemma_scan(
    m: StoreModel,
    exclude: Seq<char>,
    key: ColumnKey<Seq<char>>,
    d: DType,
    n: int,
)
    requires
        m.live.len() == m.datasets.len(),
        keys_distinct(m.datasets),
        0 <= n <= m.datasets.len(),
    ensures
        ({
            let types = types_of(m.datasets, m.live, key, n);
            let found = scan_of(m.datasets, m.live, exclude, key, n);
            &&& types.len() >= own(m, exclude, key, n)
            &&& found is None <==> types.len() == own(m, exclude, key, n)
            &&& (forall|i: int| 0 <= i < types.len() ==> align(d, #[trigger] types[i])) ==> (
            found matches Some(s) ==> align(d, s))
        }),
    decreases n,
{
    if n > 0 {
        lemma_scan(m, exclude, key, d, n - 1);
        let before = types_of(m.datasets, m.live, key, n - 1);
        let types = types_of(m.datasets, m.live, key, n);
        lemma_key_index(m.datasets, n - 1);
        if m.datasets[n - 1].0 != exclude && has_key(m.datasets, exclude) {
            assert(m.datasets[key_index(m.datasets, exclude)].0 == exclude);
        }
        if m.live[n - 1] && type_in(m.datasets[n - 1].1, key) is Some {
            let ty = type_in(m.datasets[n - 1].1, key)->Some_0;
            assert(types == before.push(ty));
            if forall|i: int| 0 <= i < types.len() ==> align(d, #[trigger] types[i]) {
                assert(align(d, types[types.len() - 1]));
                assert forall|i: int| 0 <= i < before.len() implies align(
                    d,
                    #[trigger] before[i],
                ) by {
                    assert(types[i] == before[i]);
                }
                match scan_of(m.datasets, m.live, exclude, key, n - 1) {
                    Some(a) => {
                        law_alignment_is_an_equivalence(a, ty, d);
                        law_alignment_is_an_equivalence(d, a, ty);
                        law_alignment_is_an_equivalence(d, ty, a);
                    },
                    None => {},
                }
            }
        }
    }
}

/// The index decides as a look at every dataset would: a type is accepted
/// against the answer of the index exactly when it is accepted against the
/// merged type of all other live datasets.
pub proof fn law_index_decides_as_a_scan(
    m: StoreModel,
    exclude: Seq<char>,
    key: ColumnKey<Seq<char>>,
    ty: DType,
)
    requires
        sound(m),
    ensures
        accepts(other_type(m, exclude, key), ty) == accepts(
            scan_of(m.datasets, m.live, exclude, key, m.datasets.len() as int),
            ty,
        ),
        other_type(m, exclude, key) is None <==> scan_of(
            m.datasets,
            m.live,
            exclude,
            key,
            m.datasets.len() as int,
        ) is None,
{
    let n = m.datasets.len() as int;
    let types = types_of(m.datasets, m.live, key, n);
    let entry = entry_of(m.index, key);
    assert(tracks(entry, types));
    let d = match entry {
        Some(e) => e.dtype->Some_0,
        None => DType::Bool,
    };
    lemma_scan(m, exclude, key, d, n);
    if has_key(m.datasets, exclude) {
        assert(m.datasets[key_index(m.datasets, exclude)].0 == exclude);
    }
    let found = scan_of(m.datasets, m.live, exclude, key, n);
    if entry is Some && !entry->Some_0.conflicted && found is Some {
        law_alignment_is_an_equivalence(d, found->Some_0, ty);
        law_alignment_is_an_equivalence(found->Some_0, d, ty);
    }
}

/// A dataset that declares a key has contributed to its entry.
pub proof fn lemma_owner_contributes(m: StoreModel, exclude: Seq<char>, key: ColumnKey<Seq<char>>)
    requires
        sound(m),
        declares(m, exclude, key),
    ensures
        entry_of(m.index, key) matches Some(e) && e.contributors >= 1,
{
    let n = m.datasets.len() as int;
    assert(m.datasets[key_index(m.datasets, exclude)].0 == exclude);
    lemma_scan(m, exclude, key, DType::Bool, n);
    assert(tracks(entry_of(m.index, key), types_of(m.datasets, m.live, key, n)));
}

// ---- the index, rebuilt -------------------------------------------------

/// An index after the first `n` arrays of a dataset were folded in.
pub open spec fn index_arrays(ix: IndexModel, m: DatasetModel, n: int) -> IndexModel
    decreases n,
{
    if n <= 0 {
        ix
    } else {
        indexed(
            index_arrays(ix, m, n - 1),
            ColumnKey::Array(m.arrays[n - 1].0),
            m.arrays[n - 1].1.dtype,
            m.arrays[n - 1].1.codec,
        )
    }
}

/// An index after the first `n` dataset-level attributes were folded in.
pub open spec fn index_globals(ix: IndexModel, m: DatasetModel, n: int) -> IndexModel
    decreases n,
{
    if n <= 0 {
        ix
    } else {
        indexed(
            index_globals(ix, m, n - 1),
            ColumnKey::GlobalAttr(m.global_attrs[n - 1].0),
            m.global_attrs[n - 1].1,
            Codec::Zstd,
        )
    }
}

/// An index after the first `n` attributes of one array were folded in.
pub open spec fn index_notes(
    ix: IndexModel,
    array: Seq<char>,
    attrs: Seq<(Seq<char>, DType)>,
    n: int,
) -> IndexModel
    decreases n,
{
    if n <= 0 {
        ix
    } else {
        indexed(
            index_notes(ix, array, attrs, n - 1),
            ColumnKey::ArrayAttr(array, attrs[n - 1].0),
            attrs[n - 1].1,
            Codec::Zstd,
        )
    }
}

/// An index after the attributes of the first `n` annotated arrays were folded
/// in.
pub open spec fn index_array_attrs(ix: IndexModel, m: DatasetModel, n: int) -> IndexModel
    decreases n,
{
    if n <= 0 {
        ix
    } else {
        let pair = m.array_attrs[n - 1];
        index_notes(index_array_attrs(ix, m, n - 1), pair.0, pair.1, pair.1.len() as int)
    }
}

/// An index after a dataset was folded in.
pub open spec fn index_dataset(ix: IndexModel, m: DatasetModel) -> IndexModel {
    let arrays = index_arrays(ix, m, m.arrays.len() as int);
    let globals = index_globals(arrays, m, m.global_attrs.len() as int);
    index_array_attrs(globals, m, m.array_attrs.len() as int)
}

/// The index of the live datasets among the first `n`, folded in order.
pub open spec fn rebuilt(
    datasets: Seq<(Seq<char>, DatasetModel)>,
    live: Seq<bool>,
    n: int,
) -> IndexModel
    decreases n,
{
    if n <= 0 {
        no_index()
    } else if live[n - 1] {
        index_dataset(rebuilt(datasets, live, n - 1), datasets[n - 1].1)
    } else {
        rebuilt(datasets, live, n - 1)
    }
}

/// An entry after an optional contribution.
pub open spec fn maybe_raised(entry: Option<MergedType>, ty: Option<DType>) -> Option<MergedType> {
    match ty {
        Some(t) => Some(raised(entry, t)),
        None => entry,
    }
}

/// The value under a name, with one more entry in view.
proof fn lemma_value_in_front<V>(entries: Seq<(Seq<char>, V)>, n: int, key: Seq<char>)
    requires
        keys_distinct(entries),
        0 < n <= entries.len(),
    ensures
        keys_distinct(entries.take(n)),
        keys_distinct(entries.take(n - 1)),
        value_of(entries.take(n), key) == (if entries[n - 1].0 == key {
            Some(entries[n - 1].1)
        } else {
            value_of(entries.take(n - 1), key)
        }),
        entries[n - 1].0 == key ==> value_of(entries.take(n - 1), key) is None,
{
    let longer = entries.take(n);
    let shorter = entries.take(n - 1);
    assert forall|i: int, j: int| 0 <= i < j < longer.len() implies #[trigger] longer[i].0
        != #[trigger] longer[j].0 by {
        assert(entries[i].0 != entries[j].0);
    }
    assert forall|i: int, j: int| 0 <= i < j < shorter.len() implies #[trigger] shorter[i].0
        != #[trigger] shorter[j].0 by {
        assert(entries[i].0 != entries[j].0);
    }
    lemma_key_index(longer, n - 1);
    if has_key(shorter, key) {
        let i = key_index(shorter, key);
        assert(shorter[i].0 == key);
        assert(longer[i].0 == key);
        assert(entries[i].0 == key);
        lemma_key_index(longer, i);
    }
    if has_key(longer, key) {
        let i = key_index(longer, key);
        assert(longer[i].0 == key);
        if i < n - 1 {
            assert(shorter[i].0 == key);
            assert(entries[i].0 != entries[n - 1].0);
        }
    }
}

/// Folding in arrays raises the entries of these arrays.
pub proof fn lemma_index_arrays(
    ix: IndexModel,
    m: DatasetModel,
    n: int,
    key: ColumnKey<Seq<char>>,
)
    requires
        distinct_entries(ix),
        distinct_names(m),
        0 <= n <= m.arrays.len(),
    ensures
        distinct_entries(index_arrays(ix, m, n)),
        entry_of(index_arrays(ix, m, n), key) == maybe_raised(
            entry_of(ix, key),
            match key {
                ColumnKey::Array(a) => match value_of(m.arrays.take(n), a) {
                    Some(s) => Some(s.dtype),
                    None => None,
                },
                _ => None,
            },
        ),
    decreases n,
{
    if n > 0 {
        let last = m.arrays[n - 1];
        lemma_index_arrays(ix, m, n - 1, key);
        lemma_index_arrays(ix, m, n - 1, ColumnKey::Array(last.0));
        lemma_indexed(
            index_arrays(ix, m, n - 1),
            ColumnKey::Array(last.0),
            last.1.dtype,
            last.1.codec,
            key,
        );
        lemma_value_in_front(m.arrays, n, last.0);
        match key {
            ColumnKey::Array(a) => {
                lemma_value_in_front(m.arrays, n, a);
            },
            _ => {},
        }
    }
}

/// Folding in dataset-level attributes raises the entries of these keys.
pub proof fn lemma_index_globals(
    ix: IndexModel,
    m: DatasetModel,
    n: int,
    key: ColumnKey<Seq<char>>,
)
    requires
        distinct_entries(ix),
        distinct_names(m),
        0 <= n <= m.global_attrs.len(),
    ensures
        distinct_entries(index_globals(ix, m, n)),
        entry_of(index_globals(ix, m, n), key) == maybe_raised(
            entry_of(ix, key),
            match key {
                ColumnKey::GlobalAttr(k) => value_of(m.global_attrs.take(n), k),
                _ => None,
            },
        ),
    decreases n,
{
    if n > 0 {
        let last = m.global_attrs[n - 1];
        lemma_index_globals(ix, m, n - 1, key);
        lemma_index_globals(ix, m, n - 1, ColumnKey::GlobalAttr(last.0));
        lemma_indexed(
            index_globals(ix, m, n - 1),
            ColumnKey::GlobalAttr(last.0),
            last.1,
            Codec::Zstd,
            key,
        );
        lemma_value_in_front(m.global_attrs, n, last.0);
        match key {
            ColumnKey::GlobalAttr(k) => {
                lemma_value_in_front(m.global_attrs, n, k);
            },
            _ => {},
        }
    }
}

/// Folding in attributes of one array raises the entries of these keys.
pub proof fn lemma_index_notes(
    ix: IndexModel,
    array: Seq<char>,
    attrs: Seq<(Seq<char>, DType)>,
    n: int,
    key: ColumnKey<Seq<char>>,
)
    requires
        distinct_entries(ix),
        keys_distinct(attrs),
        0 <= n <= attrs.len(),
    ensures
        distinct_entries(index_notes(ix, array, attrs, n)),
        entry_of(index_notes(ix, array, attrs, n), key) == maybe_raised(
            entry_of(ix, key),
            match key {
                ColumnKey::ArrayAttr(a, k) => if a == array {
                    value_of(attrs.take(n), k)
                } else {
                    None
                },
                _ => None,
            },
        ),
    decreases n,
{
    if n > 0 {
        let last = attrs[n - 1];
        lemma_index_notes(ix, array, attrs, n - 1, key);
        lemma_index_notes(ix, array, attrs, n - 1, ColumnKey::ArrayAttr(array, last.0));
        lemma_indexed(
            index_notes(ix, array, attrs, n - 1),
            ColumnKey::ArrayAttr(array, last.0),
            last.1,
            Codec::Zstd,
            key,
        );
        lemma_value_in_front(attrs, n, last.0);
        match key {
            ColumnKey::ArrayAttr(a, k) => {
                lemma_value_in_front(attrs, n, k);
            },
            _ => {},
        }
    }
}

/// Folding in the attributes of several arrays raises the entries of these
/// arrays and keys.
pub proof fn lemma_index_array_attrs(
    ix: IndexModel,
    m: DatasetModel,
    n: int,
    key: ColumnKey<Seq<char>>,
)
    requires
        distinct_entries(ix),
        distinct_names(m),
        0 <= n <= m.array_attrs.len(),
    ensures
        distinct_entries(index_array_attrs(ix, m, n)),
        entry_of(index_array_attrs(ix, m, n), key) == maybe_raised(
            entry_of(ix, key),
            match key {
                ColumnKey::ArrayAttr(a, k) => match value_of(m.array_attrs.take(n), a) {
                    Some(attrs) => value_of(attrs, k),
                    None => None,
                },
                _ => None,
            },
        ),
    decreases n,
{
    if n > 0 {
        let last = m.array_attrs[n - 1];
        assert(keys_distinct(last.1));
        lemma_index_array_attrs(ix, m, n - 1, key);
        lemma_index_notes(
            index_array_attrs(ix, m, n - 1),
            last.0,
            last.1,
            last.1.len() as int,
            key,
        );
        assert(last.1.take(last.1.len() as int) =~= last.1);
        match key {
            ColumnKey::ArrayAttr(a, k) => {
                lemma_value_in_front(m.array_attrs, n, a);
            },
            _ => {},
        }
    }
}

/// Folding in a dataset raises the entry of every key it declares.
pub proof fn lemma_index_dataset(ix: IndexModel, m: DatasetModel, key: ColumnKey<Seq<char>>)
    requires
        distinct_entries(ix),
        distinct_names(m),
    ensures
        distinct_entries(index_dataset(ix, m)),
        entry_of(index_dataset(ix, m), key) == maybe_raised(entry_of(ix, key), type_in(m, key)),
{
    let arrays = index_arrays(ix, m, m.arrays.len() as int);
    let globals = index_globals(arrays, m, m.global_attrs.len() as int);
    lemma_index_arrays(ix, m, m.arrays.len() as int, key);
    lemma_index_globals(arrays, m, m.global_attrs.len() as int, key);
    lemma_index_array_attrs(globals, m, m.array_attrs.len() as int, key);
    assert(m.arrays.take(m.arrays.len() as int) =~= m.arrays);
    assert(m.global_attrs.take(m.global_attrs.len() as int) =~= m.global_attrs);
    assert(m.array_attrs.take(m.array_attrs.len() as int) =~= m.array_attrs);
    match key {
        ColumnKey::ArrayAttr(a, k) => {
            assert(value_of(Seq::<(Seq<char>, DType)>::empty(), k) is None);
        },
        _ => {},
    }
}

/// There are at most as many contributions as datasets.
pub proof fn lemma_types_bound(
    datasets: Seq<(Seq<char>, DatasetModel)>,
    live: Seq<bool>,
    key: ColumnKey<Seq<char>>,
    n: int,
)
    requires
        0 <= n,
    ensures
        types_of(datasets, live, key, n).len() <= n,
    decreases n,
{
    if n > 0 {
        lemma_types_bound(datasets, live, key, n - 1);
    }
}

/// A rebuilt index stands for what the live datasets declare.
pub proof fn lemma_rebuilt(
    datasets: Seq<(Seq<char>, DatasetModel)>,
    live: Seq<bool>,
    n: int,
    key: ColumnKey<Seq<char>>,
)
    requires
        live.len() == datasets.len(),
        0 <= n <= datasets.len() <= usize::MAX,
        forall|i: int| 0 <= i < datasets.len() ==> distinct_names((#[trigger] datasets[i]).1),
    ensures
        distinct_entries(rebuilt(datasets, live, n)),
        tracks(entry_of(rebuilt(datasets, live, n), key), types_of(datasets, live, key, n)),
    decreases n,
{
    if n > 0 {
        lemma_rebuilt(datasets, live, n - 1, key);
        lemma_types_bound(datasets, live, key, n - 1);
        if live[n - 1] {
            let ix = rebuilt(datasets, live, n - 1);
            let m = datasets[n - 1].1;
            assert(distinct_names(datasets[n - 1].1));
            lemma_index_dataset(ix, m, key);
            match type_in(m, key) {
                Some(ty) => {
                    let types = types_of(datasets, live, key, n - 1);
                    lemma_added(entry_of(ix, key), types, types.len() as int, ty);
                    assert(types.insert(types.len() as int, ty) =~= types.push(ty));
                },
                None => {},
            }
        }
    } else {
        match key {
            ColumnKey::ArrayAttr(a, k) => {
                assert(value_of(Seq::<(Seq<char>, MergedType)>::empty(), k) is None);
            },
            _ => {},
        }
    }
}

/// A rebuilt index is in step.
pub proof fn lemma_rebuilt_in_step(datasets: Seq<(Seq<char>, DatasetModel)>, live: Seq<bool>)
    requires
        live.len() == datasets.len(),
        datasets.len() <= usize::MAX,
        forall|i: int| 0 <= i < datasets.len() ==> distinct_names((#[trigger] datasets[i]).1),
    ensures
        in_step(datasets, live, rebuilt(datasets, live, datasets.len() as int)),
{
    let n = datasets.len() as int;
    let ix = rebuilt(datasets, live, n);
    lemma_rebuilt(datasets, live, n, ColumnKey::Array(Seq::empty()));
    assert forall|key: ColumnKey<Seq<char>>| tracks(
        #[trigger] entry_of(ix, key),
        types_of(datasets, live, key, n),
    ) by {
        lemma_rebuilt(datasets, live, n, key);
    }
}

/// The types of a key after one live dataset began to declare it: one more
/// type, at the dataset's place.
pub proof fn lemma_types_gain(
    datasets: Seq<(Seq<char>, DatasetModel)>,
    live: Seq<bool>,
    p: int,
    entry: (Seq<char>, DatasetModel),
    key: ColumnKey<Seq<char>>,
    n: int,
)
    requires
        0 <= p < datasets.len(),
        0 <= n <= datasets.len(),
        live[p],
        type_in(datasets[p].1, key) is None,
    ensures
        ({
            let after = datasets.update(p, entry);
            let front = types_of(datasets, live, key, p);
            let all = types_of(datasets, live, key, n);
            match type_in(entry.1, key) {
                Some(ty) => if p < n {
                    &&& front.len() <= all.len()
                    &&& types_of(after, live, key, n) == all.insert(front.len() as int, ty)
                    &&& all.len() < n
                } else {
                    types_of(after, live, key, n) == all
                },
                None => types_of(after, live, key, n) == all,
            }
        }),
    decreases n,
{
    if n > 0 {
        lemma_types_gain(datasets, live, p, entry, key, n - 1);
        lemma_types_bound(datasets, live, key, n - 1);
        let after = datasets.update(p, entry);
        let front = types_of(datasets, live, key, p);
        let before = types_of(datasets, live, key, n - 1);
        let all = types_of(datasets, live, key, n);
        match type_in(entry.1, key) {
            Some(ty) => {
                if p < n - 1 {
                    assert(types_of(after, live, key, n) =~= all.insert(front.len() as int, ty));
                } else if p == n - 1 {
                    assert(before.push(ty) =~= all.insert(front.len() as int, ty));
                }
            },
            None => {},
        }
    }
}

/// The types of a key do not change where no dataset changes its type.
pub proof fn lemma_types_same(
    datasets: Seq<(Seq<char>, DatasetModel)>,
    live: Seq<bool>,
    p: int,
    entry: (Seq<char>, DatasetModel),
    key: ColumnKey<Seq<char>>,
    n: int,
)
    requires
        0 <= p < datasets.len(),
        0 <= n <= datasets.len(),
        !live[p] || type_in(datasets[p].1, key) == type_in(entry.1, key),
    ensures
        types_of(datasets.update(p, entry), live, key, n) == types_of(datasets, live, key, n),
    decreases n,
{
    if n > 0 {
        lemma_types_same(datasets, live, p, entry, key, n - 1);
    }
}

/// The types of a key after a dataset was added at the end.
pub proof fn lemma_types_pushed(
    datasets: Seq<(Seq<char>, DatasetModel)>,
    live: Seq<bool>,
    entry: (Seq<char>, DatasetModel),
    key: ColumnKey<Seq<char>>,
    n: int,
)
    requires
        live.len() == datasets.len(),
        0 <= n <= datasets.len(),
    ensures
        types_of(datasets.push(entry), live.push(true), key, n) == types_of(
            datasets,
            live,
            key,
            n,
        ),
    decreases n,
{
    if n > 0 {
        lemma_types_pushed(datasets, live, entry, key, n - 1);
    }
}

/// What the metadata says of a dataset: nothing, where the name is new.
pub open spec fn current(m: StoreModel, dataset: Seq<char>) -> DatasetModel {
    match value_of(m.datasets, dataset) {
        Some(schema) => schema,
        None => no_schema(),
    }
}

/// A dataset that is live, or whose name is new.
pub open spec fn open_to_writes(m: StoreModel, dataset: Seq<char>) -> bool {
    has_key(m.datasets, dataset) ==> m.live[key_index(m.datasets, dataset)]
}

/// The metadata after a dataset's schema was replaced. A new name goes to the
/// end, and is live. The index is left as it was.
pub open spec fn with_schema(m: StoreModel, dataset: Seq<char>, schema: DatasetModel) -> StoreModel {
    StoreModel {
        datasets: with_entry(m.datasets, dataset, schema),
        live: if has_key(m.datasets, dataset) {
            m.live
        } else {
            m.live.push(true)
        },
        ..m
    }
}

/// The metadata with a rebuilt index.
pub open spec fn reindexed(m: StoreModel) -> StoreModel {
    StoreModel { index: rebuilt(m.datasets, m.live, m.datasets.len() as int), ..m }
}

/// The metadata after a dataset declared a key with a type. `schema` is the
/// dataset's schema with the declaration in it.
///
/// A new key is folded into the index. A key that got another type has the
/// index rebuilt, because a merged type cannot narrow. A key that keeps its
/// type, and a key of a tombstone, leave the index alone.
pub open spec fn recorded(
    m: StoreModel,
    dataset: Seq<char>,
    schema: DatasetModel,
    key: ColumnKey<Seq<char>>,
    ty: DType,
    codec: Codec,
) -> StoreModel {
    let after = with_schema(m, dataset, schema);
    match type_in(current(m, dataset), key) {
        Some(earlier) => if earlier == ty {
            after
        } else {
            reindexed(after)
        },
        None => if open_to_writes(m, dataset) {
            StoreModel { index: indexed(m.index, key, ty, codec), ..after }
        } else {
            after
        },
    }
}

/// A dataset schema differs from another in one key only.
pub open spec fn only_key(
    before: DatasetModel,
    after: DatasetModel,
    key: ColumnKey<Seq<char>>,
    ty: DType,
) -> bool {
    &&& distinct_names(after)
    &&& type_in(after, key) == Some(ty)
    &&& forall|other: ColumnKey<Seq<char>>|
        other != key ==> #[trigger] type_in(after, other) == type_in(before, other)
}

/// An empty schema gives no key a type.
pub proof fn lemma_no_schema(key: ColumnKey<Seq<char>>)
    ensures
        type_in(no_schema(), key) is None,
        distinct_names(no_schema()),
{
    match key {
        ColumnKey::ArrayAttr(a, k) => {
            assert(value_of(Seq::<(Seq<char>, DType)>::empty(), k) is None);
        },
        _ => {},
    }
}

/// Replacing a schema keeps names distinct.
pub proof fn lemma_with_schema(m: StoreModel, dataset: Seq<char>, schema: DatasetModel)
    requires
        m.live.len() == m.datasets.len(),
        keys_distinct(m.datasets),
        forall|i: int| 0 <= i < m.datasets.len() ==> distinct_names((#[trigger] m.datasets[i]).1),
        distinct_names(schema),
    ensures
        ({
            let after = with_schema(m, dataset, schema);
            &&& after.live.len() == after.datasets.len()
            &&& keys_distinct(after.datasets)
            &&& forall|i: int|
                0 <= i < after.datasets.len() ==> distinct_names((#[trigger] after.datasets[i]).1)
        }),
{
    let after = with_schema(m, dataset, schema);
    law_get_after_set(m.datasets, dataset, schema, dataset);
    if has_key(m.datasets, dataset) {
        assert(m.datasets[key_index(m.datasets, dataset)].0 == dataset);
    }
    assert forall|i: int| 0 <= i < after.datasets.len() implies distinct_names(
        (#[trigger] after.datasets[i]).1,
    ) by {
        if i < m.datasets.len() && after.datasets[i] == m.datasets[i] {
            assert(distinct_names(m.datasets[i].1));
        }
    }
}

/// Rebuilding the index makes a store sound.
pub proof fn lemma_reindexed(m: StoreModel)
    requires
        m.live.len() == m.datasets.len(),
        m.datasets.len() <= usize::MAX,
        keys_distinct(m.datasets),
        forall|i: int| 0 <= i < m.datasets.len() ==> distinct_names((#[trigger] m.datasets[i]).1),
    ensures
        sound(reindexed(m)),
{
    lemma_rebuilt_in_step(m.datasets, m.live);
}

/// Recording a key keeps a store sound.
pub proof fn lemma_recorded(
    m: StoreModel,
    dataset: Seq<char>,
    schema: DatasetModel,
    key: ColumnKey<Seq<char>>,
    ty: DType,
    codec: Codec,
)
    requires
        sound(m),
        with_schema(m, dataset, schema).datasets.len() <= usize::MAX,
        only_key(current(m, dataset), schema, key, ty),
    ensures
        sound(recorded(m, dataset, schema, key, ty, codec)),
        type_in(current(m, dataset), key) is None && open_to_writes(m, dataset) ==> (entry_of(
            m.index,
            key,
        ) matches Some(e) ==> e.contributors < usize::MAX),
{
    let after = with_schema(m, dataset, schema);
    let n = m.datasets.len() as int;
    let len = after.datasets.len() as int;
    let ix = recorded(m, dataset, schema, key, ty, codec).index;
    lemma_with_schema(m, dataset, schema);
    let known = has_key(m.datasets, dataset);
    let p = if known {
        key_index(m.datasets, dataset)
    } else {
        n
    };
    if known {
        assert(m.datasets[p].0 == dataset);
        assert(after.datasets =~= m.datasets.update(p, (dataset, schema)));
    }
    let earlier = type_in(current(m, dataset), key);
    if earlier matches Some(e) && e != ty {
        lemma_reindexed(after);
    } else {
        assert forall|other: ColumnKey<Seq<char>>| tracks(
            #[trigger] entry_of(ix, other),
            types_of(after.datasets, after.live, other, len),
        ) && (other == key && earlier is None && open_to_writes(m, dataset) ==> (entry_of(
            m.index,
            key,
        ) matches Some(e) ==> e.contributors < usize::MAX)) by {
            let types = types_of(m.datasets, m.live, other, n);
            assert(tracks(entry_of(m.index, other), types));
            lemma_types_bound(m.datasets, m.live, other, n);
            lemma_no_schema(other);
            if known {
                if other != key || earlier is Some || !m.live[p] {
                    assert(type_in(schema, other) == type_in(current(m, dataset), other)
                        || !m.live[p]);
                    lemma_types_same(m.datasets, m.live, p, (dataset, schema), other, n);
                } else {
                    lemma_types_gain(m.datasets, m.live, p, (dataset, schema), other, n);
                    let at = types_of(m.datasets, m.live, other, p).len() as int;
                    lemma_added(entry_of(m.index, other), types, at, ty);
                }
            } else {
                lemma_types_pushed(m.datasets, m.live, (dataset, schema), other, n);
                assert(after.datasets =~= m.datasets.push((dataset, schema)));
                assert(after.datasets[n] == (dataset, schema));
                if other == key {
                    lemma_added(entry_of(m.index, other), types, types.len() as int, ty);
                    assert(types.insert(types.len() as int, ty) =~= types.push(ty));
                }
            }
            if earlier is None && open_to_writes(m, dataset) {
                lemma_indexed(m.index, key, ty, codec, other);
            }
        }
        if earlier is None && open_to_writes(m, dataset) {
            lemma_indexed(m.index, key, ty, codec, key);
        }
        assert(entry_of(ix, key) == entry_of(ix, key));
    }
}

/// Setting an array's schema changes the type of that array only.
pub proof fn lemma_array_only(m: DatasetModel, array: Seq<char>, schema: ArraySchemaModel)
    requires
        distinct_names(m),
    ensures
        only_key(
            m,
            DatasetModel { arrays: with_entry(m.arrays, array, schema), ..m },
            ColumnKey::Array(array),
            schema.dtype,
        ),
{
    let after = DatasetModel { arrays: with_entry(m.arrays, array, schema), ..m };
    law_get_after_set(m.arrays, array, schema, array);
    assert forall|other: ColumnKey<Seq<char>>| other != ColumnKey::Array(array) implies #[trigger] type_in(
        after,
        other,
    ) == type_in(m, other) by {
        match other {
            ColumnKey::Array(b) => {
                law_get_after_set(m.arrays, array, schema, b);
            },
            _ => {},
        }
    }
}

/// Setting a dataset-level attribute changes the type of that key only.
pub proof fn lemma_global_only(m: DatasetModel, key: Seq<char>, ty: DType)
    requires
        distinct_names(m),
    ensures
        only_key(
            m,
            DatasetModel { global_attrs: with_entry(m.global_attrs, key, ty), ..m },
            ColumnKey::GlobalAttr(key),
            ty,
        ),
{
    let after = DatasetModel { global_attrs: with_entry(m.global_attrs, key, ty), ..m };
    law_get_after_set(m.global_attrs, key, ty, key);
    assert forall|other: ColumnKey<Seq<char>>|
        other != ColumnKey::GlobalAttr(key) implies #[trigger] type_in(after, other) == type_in(
        m,
        other,
    ) by {
        match other {
            ColumnKey::GlobalAttr(b) => {
                law_get_after_set(m.global_attrs, key, ty, b);
            },
            _ => {},
        }
    }
}

/// Setting an attribute of an array changes the type of that key only.
pub proof fn lemma_array_attr_only(m: DatasetModel, array: Seq<char>, key: Seq<char>, ty: DType)
    requires
        distinct_names(m),
    ensures
        only_key(m, with_array_attr(m, array, key, ty), ColumnKey::ArrayAttr(array, key), ty),
{
    let after = with_array_attr(m, array, key, ty);
    let inner = attrs_of(m, array);
    let more = with_entry(inner, key, ty);
    lemma_with_array_attr(m, array, key, ty);
    law_get_after_set(m.array_attrs, array, more, array);
    law_get_after_set(inner, key, ty, key);
    assert forall|other: ColumnKey<Seq<char>>|
        other != ColumnKey::ArrayAttr(array, key) implies #[trigger] type_in(after, other)
        == type_in(m, other) by {
        match other {
            ColumnKey::ArrayAttr(b, k) => {
                law_get_after_set(m.array_attrs, array, more, b);
                if b == array {
                    law_get_after_set(inner, key, ty, k);
                }
            },
            _ => {},
        }
    }
}

/// The metadata after a dataset with this schema took its place, live. A known
/// name keeps its ordinal; a new one goes to the end. The index is left as it
/// was.
pub open spec fn placed(m: StoreModel, dataset: Seq<char>, schema: DatasetModel) -> StoreModel {
    StoreModel {
        datasets: with_entry(m.datasets, dataset, schema),
        live: if has_key(m.datasets, dataset) {
            m.live.update(key_index(m.datasets, dataset), true)
        } else {
            m.live.push(true)
        },
        ..m
    }
}

/// The metadata without its tombstones.
pub open spec fn compacted(m: StoreModel) -> StoreModel {
    let kept = live_entries(m.datasets, m.live, m.datasets.len() as int);
    StoreModel { datasets: kept, live: Seq::new(kept.len(), |i: int| true), ..m }
}

/// An empty dataset at the end leaves the index in step.
pub proof fn lemma_placed_new(m: StoreModel, dataset: Seq<char>)
    requires
        sound(m),
        !has_key(m.datasets, dataset),
    ensures
        sound(placed(m, dataset, no_schema())),
{
    let after = placed(m, dataset, no_schema());
    let n = m.datasets.len() as int;
    lemma_no_schema(ColumnKey::Array(dataset));
    lemma_with_schema(m, dataset, no_schema());
    assert forall|key: ColumnKey<Seq<char>>| tracks(
        #[trigger] entry_of(m.index, key),
        types_of(after.datasets, after.live, key, n + 1),
    ) by {
        lemma_types_pushed(m.datasets, m.live, (dataset, no_schema()), key, n);
        lemma_no_schema(key);
        assert(after.datasets[n] == (dataset, no_schema()));
    }
}

/// The live datasets keep distinct names and schemas with distinct names.
pub proof fn lemma_live_entries(m: StoreModel, n: int)
    requires
        m.live.len() == m.datasets.len(),
        keys_distinct(m.datasets),
        forall|i: int| 0 <= i < m.datasets.len() ==> distinct_names((#[trigger] m.datasets[i]).1),
        0 <= n <= m.datasets.len(),
    ensures
        ({
            let kept = live_entries(m.datasets, m.live, n);
            &&& kept.len() <= n
            &&& keys_distinct(kept)
            &&& forall|i: int| 0 <= i < kept.len() ==> distinct_names((#[trigger] kept[i]).1)
            &&& forall|i: int|
                0 <= i < kept.len() ==> exists|k: int|
                    0 <= k < n && (#[trigger] kept[i]) == #[trigger] m.datasets[k]
        }),
    decreases n,
{
    if n > 0 {
        lemma_live_entries(m, n - 1);
        let front = live_entries(m.datasets, m.live, n - 1);
        let kept = live_entries(m.datasets, m.live, n);
        assert(distinct_names(m.datasets[n - 1].1));
        assert forall|i: int| 0 <= i < kept.len() implies exists|k: int|
            0 <= k < n && (#[trigger] kept[i]) == #[trigger] m.datasets[k] by {
            if i < front.len() {
                assert(kept[i] == front[i]);
                let k = choose|k: int| 0 <= k < n - 1 && front[i] == #[trigger] m.datasets[k];
                assert(0 <= k < n && kept[i] == m.datasets[k]);
            } else {
                assert(kept[i] == m.datasets[n - 1]);
            }
        }
        assert forall|i: int, j: int| 0 <= i < j < kept.len() implies #[trigger] kept[i].0
            != #[trigger] kept[j].0 by {
            if j < front.len() {
                assert(front[i].0 != front[j].0);
            } else {
                assert(kept[i] == front[i]);
                let k = choose|k: int| 0 <= k < n - 1 && front[i] == #[trigger] m.datasets[k];
                assert(m.datasets[k].0 != m.datasets[n - 1].0);
            }
        }
        assert forall|i: int| 0 <= i < kept.len() implies distinct_names(
            (#[trigger] kept[i]).1,
        ) by {
            if i < front.len() {
                assert(kept[i] == front[i]);
            }
        }
    }
}

/// A tombstone keeps its slot: marking one dataset as deleted moves no other
/// dataset, and every other stays as live as it was.
pub proof fn law_tombstones_move_no_ordinal(m: StoreModel, dataset: Seq<char>, other: Seq<char>)
    requires
        sound(m),
        has_key(m.datasets, dataset),
        has_key(m.datasets, other),
        other != dataset,
    ensures
        ({
            let after = deleted(m, dataset);
            &&& key_index(after.datasets, other) == key_index(m.datasets, other)
            &&& value_of(after.datasets, other) == value_of(m.datasets, other)
            &&& after.live[key_index(m.datasets, other)] == m.live[key_index(m.datasets, other)]
            &&& !after.live[key_index(m.datasets, dataset)]
        }),
{
    assert(m.datasets[key_index(m.datasets, dataset)].0 == dataset);
    assert(m.datasets[key_index(m.datasets, other)].0 == other);
}

/// The metadata after a dataset was deleted: its slot stays, as a tombstone.
pub open spec fn deleted(m: StoreModel, dataset: Seq<char>) -> StoreModel {
    reindexed(
        StoreModel { live: m.live.update(key_index(m.datasets, dataset), false), ..m },
    )
}

/// A revived name takes its old slot and starts from nothing.
pub proof fn law_revived_datasets_start_empty(m: StoreModel, dataset: Seq<char>)
    requires
        sound(m),
        has_key(m.datasets, dataset),
    ensures
        ({
            let after = placed(deleted(m, dataset), dataset, no_schema());
            &&& after.datasets.len() == m.datasets.len()
            &&& key_index(after.datasets, dataset) == key_index(m.datasets, dataset)
            &&& value_of(after.datasets, dataset) == Some(no_schema())
            &&& after.live[key_index(m.datasets, dataset)]
        }),
{
    let i = key_index(m.datasets, dataset);
    assert(m.datasets[i].0 == dataset);
    law_get_after_set(m.datasets, dataset, no_schema(), dataset);
    let after = placed(deleted(m, dataset), dataset, no_schema());
    assert(after.datasets[i].0 == dataset);
    lemma_key_index(after.datasets, i);
}

/// Dropping the tombstones leaves just the live datasets, in their order, and
/// all of them live.
pub proof fn law_compacted_stores_hold_the_live_datasets(m: StoreModel)
    requires
        sound(m),
        m.datasets.len() <= usize::MAX,
    ensures
        sound(reindexed(compacted(m))),
        reindexed(compacted(m)).datasets == live_entries(
            m.datasets,
            m.live,
            m.datasets.len() as int,
        ),
{
    lemma_live_entries(m, m.datasets.len() as int);
    lemma_reindexed(compacted(m));
}

/// What a key names has the type its dataset gives it: an array its element
/// type, an attribute the type that stands under its key. A name that does not
/// occur has no type.
pub proof fn law_keys_have_the_types_their_dataset_gives(m: DatasetModel, i: int, k: int)
    requires
        distinct_names(m),
    ensures
        0 <= i < m.arrays.len() ==> type_in(m, ColumnKey::Array(m.arrays[i].0)) == Some(
            m.arrays[i].1.dtype,
        ),
        0 <= i < m.global_attrs.len() ==> type_in(m, ColumnKey::GlobalAttr(m.global_attrs[i].0))
            == Some(m.global_attrs[i].1),
        0 <= i < m.array_attrs.len() && 0 <= k < m.array_attrs[i].1.len() ==> type_in(
            m,
            ColumnKey::ArrayAttr(m.array_attrs[i].0, m.array_attrs[i].1[k].0),
        ) == Some(m.array_attrs[i].1[k].1),
{
    if 0 <= i < m.arrays.len() {
        lemma_key_index(m.arrays, i);
    }
    if 0 <= i < m.global_attrs.len() {
        lemma_key_index(m.global_attrs, i);
    }
    if 0 <= i < m.array_attrs.len() && 0 <= k < m.array_attrs[i].1.len() {
        lemma_key_index(m.array_attrs, i);
        lemma_key_index(m.array_attrs[i].1, k);
    }
}

/// A key of a name that a dataset does not hold has no type.
pub proof fn law_unknown_keys_have_no_type(m: DatasetModel, array: Seq<char>, key: Seq<char>)
    ensures
        (forall|i: int| 0 <= i < m.arrays.len() ==> #[trigger] m.arrays[i].0 != array) ==> type_in(
            m,
            ColumnKey::Array(array),
        ) is None,
        (forall|i: int|
            0 <= i < m.global_attrs.len() ==> #[trigger] m.global_attrs[i].0 != key) ==> type_in(
            m,
            ColumnKey::GlobalAttr(key),
        ) is None,
        (forall|i: int|
            0 <= i < m.array_attrs.len() ==> #[trigger] m.array_attrs[i].0 != array) ==> type_in(
            m,
            ColumnKey::ArrayAttr(array, key),
        ) is None,
{
}

proof fn lemma_scan_from_the_first(
    m: StoreModel,
    exclude: Seq<char>,
    key: ColumnKey<Seq<char>>,
    at: int,
    n: int,
)
    requires
        0 <= n <= m.datasets.len(),
        forall|j: int|
            0 <= j < at && j < m.datasets.len() ==> !(m.live[j] && (#[trigger] m.datasets[j]).0
                != exclude && type_in(m.datasets[j].1, key) is Some),
        0 <= at < m.datasets.len() ==> m.live[at] && m.datasets[at].0 != exclude && type_in(
            m.datasets[at].1,
            key,
        ) is Some,
        0 <= at,
    ensures
        n <= at ==> scan_of(m.datasets, m.live, exclude, key, n) is None,
        at < n ==> (scan_of(m.datasets, m.live, exclude, key, n) matches Some(s) && align(
            type_in(m.datasets[at].1, key)->Some_0,
            s,
        )),
    decreases n,
{
    if n > 0 {
        lemma_scan_from_the_first(m, exclude, key, at, n - 1);
        assert(m.datasets[n - 1] == m.datasets[n - 1]);
        let front = scan_of(m.datasets, m.live, exclude, key, n - 1);
        if at < n && m.live[n - 1] && m.datasets[n - 1].0 != exclude {
            let t = type_in(m.datasets[at].1, key)->Some_0;
            law_alignment_is_an_equivalence(t, t, t);
            match (front, type_in(m.datasets[n - 1].1, key)) {
                (Some(a), Some(ty)) => {
                    law_alignment_is_an_equivalence(a, ty, t);
                },
                _ => {},
            }
        }
    }
}

/// A write is held to the datasets that are live, but for the one that writes:
/// to the type that the first of them gives the key. Where none gives it a
/// type, anything goes.
pub proof fn law_writes_are_held_to_the_first_other_dataset(
    m: StoreModel,
    exclude: Seq<char>,
    key: ColumnKey<Seq<char>>,
    ty: DType,
    at: int,
)
    requires
        sound(m),
        0 <= at <= m.datasets.len(),
        forall|j: int|
            0 <= j < at ==> !(m.live[j] && (#[trigger] m.datasets[j]).0 != exclude && type_in(
                m.datasets[j].1,
                key,
            ) is Some),
        at < m.datasets.len() ==> m.live[at] && m.datasets[at].0 != exclude && type_in(
            m.datasets[at].1,
            key,
        ) is Some,
    ensures
        at == m.datasets.len() ==> other_type(m, exclude, key) is None,
        at < m.datasets.len() ==> (other_type(m, exclude, key) matches Some(other) && (widened(
            other,
            ty,
        ) is Some <==> widened(type_in(m.datasets[at].1, key)->Some_0, ty) is Some)),
{
    let n = m.datasets.len() as int;
    lemma_scan_from_the_first(m, exclude, key, at, n);
    law_index_decides_as_a_scan(m, exclude, key, ty);
    if at < n {
        let t = type_in(m.datasets[at].1, key)->Some_0;
        let s = scan_of(m.datasets, m.live, exclude, key, n)->Some_0;
        law_alignment_is_an_equivalence(t, s, ty);
        law_alignment_is_an_equivalence(s, t, ty);
    }
}

/// The live datasets stand by increasing ordinal, each live one once.
pub proof fn law_live_datasets_keep_their_order(
    datasets: Seq<(Seq<char>, DatasetModel)>,
    live: Seq<bool>,
    n: nat,
)
    ensures
        live_rows(live, n as int) == Seq::new(n, |i: int| i).filter(|i: int| live[i]),
        live_entries(datasets, live, n as int) == Seq::new(
            live_rows(live, n as int).len(),
            |k: int| datasets[live_rows(live, n as int)[k]],
        ),
    decreases n,
{
    reveal(Seq::filter);
    if n > 0 {
        let m = (n - 1) as nat;
        law_live_datasets_keep_their_order(datasets, live, m);
        let all = Seq::new(n, |i: int| i);
        assert(all.drop_last() =~= Seq::new(m, |i: int| i));
        let (front, rows) = (live_rows(live, m as int), live_rows(live, n as int));
        assert(live_entries(datasets, live, n as int) =~= Seq::new(
            rows.len(),
            |k: int| datasets[rows[k]],
        ));
    } else {
        assert(Seq::new(0, |i: int| i) =~= Seq::<int>::empty());
        assert(live_entries(datasets, live, 0) =~= Seq::new(
            live_rows(live, 0).len(),
            |k: int| datasets[live_rows(live, 0)[k]],
        ));
    }
}

/// Replacing a dataset's schema changes that dataset alone: it has the schema
/// that was given, every other keeps its own, and all stay as live as they
/// were, at their ordinals. A new name goes to the end, live.
pub proof fn law_only_the_named_dataset_changes(
    m: StoreModel,
    dataset: Seq<char>,
    schema: DatasetModel,
    other: Seq<char>,
    i: int,
)
    requires
        keys_distinct(m.datasets),
        m.live.len() == m.datasets.len(),
    ensures
        ({
            let after = with_schema(m, dataset, schema);
            &&& value_of(after.datasets, dataset) == Some(schema)
            &&& other != dataset ==> value_of(after.datasets, other) == value_of(m.datasets, other)
            &&& 0 <= i < m.datasets.len() ==> after.datasets[i].0 == m.datasets[i].0
                && after.live[i] == m.live[i]
            &&& (forall|j: int| 0 <= j < m.datasets.len() ==> #[trigger] m.datasets[j].0 != dataset)
                ==> after.datasets == m.datasets.push((dataset, schema)) && after.live
                == m.live.push(true)
            &&& after.version == m.version && after.codec == m.codec && after.meta_epoch
                == m.meta_epoch
        }),
{
    law_get_after_set(m.datasets, dataset, schema, other);
    if has_key(m.datasets, dataset) {
        assert(m.datasets[key_index(m.datasets, dataset)].0 == dataset);
    }
}

/// Recording a key changes the datasets as replacing the schema does, and
/// nothing else of the store but the index.
pub proof fn law_recording_touches_the_schema_and_the_index(
    m: StoreModel,
    dataset: Seq<char>,
    schema: DatasetModel,
    key: ColumnKey<Seq<char>>,
    ty: DType,
    codec: Codec,
)
    ensures
        recorded(m, dataset, schema, key, ty, codec) == (StoreModel {
            index: recorded(m, dataset, schema, key, ty, codec).index,
            ..with_schema(m, dataset, schema)
        }),
        reindexed(m) == (StoreModel { index: reindexed(m).index, ..m }),
{
}

/// A dataset that takes its place is live there with the schema it was given.
/// No other changes, and none moves.
pub proof fn law_placed_datasets_are_live(
    m: StoreModel,
    dataset: Seq<char>,
    schema: DatasetModel,
    i: int,
)
    requires
        keys_distinct(m.datasets),
        m.live.len() == m.datasets.len(),
    ensures
        ({
            let after = placed(m, dataset, schema);
            let at = key_index(after.datasets, dataset);
            &&& has_key(after.datasets, dataset)
            &&& after.live.len() == after.datasets.len()
            &&& after.live[at]
            &&& after.datasets[at] == (dataset, schema)
            &&& 0 <= i < m.datasets.len() ==> after.datasets[i].0 == m.datasets[i].0
            &&& 0 <= i < m.datasets.len() && i != at ==> after.datasets[i] == m.datasets[i]
                && after.live[i] == m.live[i]
        }),
{
    let after = placed(m, dataset, schema);
    law_get_after_set(m.datasets, dataset, schema, dataset);
    if has_key(m.datasets, dataset) {
        let at = key_index(m.datasets, dataset);
        assert(m.datasets[at].0 == dataset);
        assert(after.datasets[at].0 == dataset);
        lemma_key_index(after.datasets, at);
    } else {
        let at = m.datasets.len() as int;
        assert(after.datasets[at].0 == dataset);
        lemma_key_index(after.datasets, at);
    }
}

} // verus!
