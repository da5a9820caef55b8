//! The incremental type index: what type each array and attribute key holds
//! across the whole store, kept as datasets are written.
//!
//! Without it, every write would look through all datasets for the type that
//! is already recorded for its key. The index answers in one lookup. Only for
//! a key that holds types which do not merge must the caller look itself.

use crate::config::Codec;
use crate::pruning::ColumnKey;
use crate::schema::dtype::{align, law_alignment_is_an_equivalence, widen_dtype, widened, DType};
use crate::table::{
    has_key, key_index, keys_distinct, law_get_after_set, lemma_viewed, lemma_viewed_with_entry,
    value_of, viewed, with_entry, Table,
};
use vstd::prelude::*;

verus! {

/// What a new value's type is compared against.
#[derive(Debug)]
pub enum Constraint {
    /// No other dataset uses this key: anything goes.
    Unconstrained,
    /// The new type must widen with this merged type.
    Type(DType),
    /// The index cannot answer exactly; the caller must look at every dataset.
    NeedsScan,
}

/// The merged type recorded for one key, and how many datasets contribute.
///
/// The first type wins: one that does not merge leaves `dtype` alone and marks
/// the key as conflicted.
#[derive(Debug)]
pub struct MergedType {
    /// The merged type. `None` before the first contribution.
    pub dtype: Option<DType>,
    /// How many datasets contribute.
    pub contributors: usize,
    /// Whether some of the types do not merge.
    pub conflicted: bool,
}

/// A merged type nobody contributed to.
pub open spec fn no_type() -> MergedType {
    MergedType { dtype: None, contributors: 0, conflicted: false }
}

/// A merged type after one more contribution.
pub open spec fn added(m: MergedType, ty: DType) -> MergedType {
    let (dtype, clash) = match m.dtype {
        None => (ty, false),
        Some(a) => match widened(a, ty) {
            Some(w) => (w, false),
            None => (a, true),
        },
    };
    MergedType {
        dtype: Some(dtype),
        contributors: (m.contributors + 1) as usize,
        conflicted: m.conflicted || clash,
    }
}

/// What a write from a dataset must satisfy. The dataset's own contribution
/// does not bind it.
pub open spec fn constraint_of(m: MergedType, owner_declares: bool) -> Constraint {
    let others = m.contributors - if owner_declares {
        1int
    } else {
        0int
    };
    if others == 0 {
        Constraint::Unconstrained
    } else if m.conflicted {
        Constraint::NeedsScan
    } else {
        match m.dtype {
            Some(d) => Constraint::Type(d),
            None => Constraint::Unconstrained,
        }
    }
}

impl MergedType {
    fn new() -> (m: Self)
        ensures
            m == no_type(),
    {
        MergedType { dtype: None, contributors: 0, conflicted: false }
    }

    /// Takes in one more contribution.
    pub fn add(self, ty: &DType) -> (m: Self)
        requires
            self.contributors < usize::MAX,
        ensures
            m == added(self, *ty),
    {
        let contributors: usize = self.contributors + 1;
        match self.dtype {
            None => MergedType {
                dtype: Some(ty.clone()),
                contributors,
                conflicted: self.conflicted,
            },
            Some(a) => match widen_dtype(&a, ty) {
                Some(w) => MergedType { dtype: Some(w), contributors, conflicted: self.conflicted },
                None => MergedType { dtype: Some(a), contributors, conflicted: true },
            },
        }
    }

    /// What a write from a dataset that declares the key, or does not, must
    /// satisfy.
    pub fn constraint(&self, owner_declares: bool) -> (c: Constraint)
        requires
            owner_declares ==> self.contributors >= 1,
        ensures
            c == constraint_of(*self, owner_declares),
    {
        let others: usize = if owner_declares {
            self.contributors - 1
        } else {
            self.contributors
        };
        if others == 0 {
            return Constraint::Unconstrained;
        }
        if self.conflicted {
            return Constraint::NeedsScan;
        }
        match &self.dtype {
            Some(d) => Constraint::Type(d.clone()),
            None => Constraint::Unconstrained,
        }
    }
}

/// What is true of the merged type of some contributions, whatever their
/// order: it counts them, it is marked exactly when some do not merge, and
/// otherwise it merges with each of them.
pub open spec fn summarizes(m: MergedType, types: Seq<DType>) -> bool {
    &&& m.contributors == types.len()
    &&& types.len() > 0
    &&& m.dtype matches Some(d) && (!m.conflicted ==> forall|i: int|
        0 <= i < types.len() ==> align(d, #[trigger] types[i]))
    &&& m.conflicted ==> exists|i: int, j: int|
        0 <= i < types.len() && 0 <= j < types.len() && !align(
            #[trigger] types[i],
            #[trigger] types[j],
        )
}

/// An index entry stands for some contributions; a key without contributions
/// has no entry.
pub open spec fn tracks(entry: Option<MergedType>, types: Seq<DType>) -> bool {
    match entry {
        Some(m) => summarizes(m, types),
        None => types.len() == 0,
    }
}

/// One more contribution, wherever it stands among the others.
pub proof fn lemma_added(entry: Option<MergedType>, types: Seq<DType>, at: int, ty: DType)
    requires
        tracks(entry, types),
        0 <= at <= types.len(),
        types.len() < usize::MAX,
    ensures
        summarizes(
            added(
                match entry {
                    Some(m) => m,
                    None => no_type(),
                },
                ty,
            ),
            types.insert(at, ty),
        ),
{
    let more = types.insert(at, ty);
    assert(more[at] == ty);
    let place = |i: int| if i < at {
        i
    } else {
        i + 1
    };
    assert forall|i: int| 0 <= i < types.len() implies more[place(i)] == #[trigger] types[i] by {}
    match entry {
        None => {
            law_alignment_is_an_equivalence(ty, ty, ty);
        },
        Some(m) => {
            let d = m.dtype->Some_0;
            law_alignment_is_an_equivalence(d, ty, ty);
            if m.conflicted {
                let (i, j) = choose|i: int, j: int|
                    0 <= i < types.len() && 0 <= j < types.len() && !align(
                        #[trigger] types[i],
                        #[trigger] types[j],
                    );
                assert(more[place(i)] == types[i]);
                assert(more[place(j)] == types[j]);
            } else if align(d, ty) {
                let w = widened(d, ty)->Some_0;
                assert forall|i: int| 0 <= i < more.len() implies align(w, #[trigger] more[i]) by {
                    law_alignment_is_an_equivalence(d, ty, more[i]);
                    law_alignment_is_an_equivalence(d, more[i], ty);
                    if i < at {
                        assert(more[i] == types[i]);
                    } else if i > at {
                        assert(more[i] == types[i - 1]);
                    }
                }
            } else {
                assert(types[0] == more[place(0)]);
                assert(align(d, types[0]));
                law_alignment_is_an_equivalence(d, types[0], ty);
                assert(!align(more[place(0)], more[at]));
            }
        },
    }
}

/// The merged type of an array, and the codec of the file that backs the name.
#[derive(Debug)]
pub struct ArrayEntry {
    /// The merged type across all datasets.
    pub dtype: MergedType,
    /// The codec, from the first dataset that declared the array.
    pub codec: Codec,
}

/// What the index holds.
#[verifier::ext_equal]
pub struct IndexModel {
    /// By array name.
    pub arrays: Seq<(Seq<char>, ArrayEntry)>,
    /// By dataset-level attribute key.
    pub global_attrs: Seq<(Seq<char>, MergedType)>,
    /// By array name and attribute key.
    pub array_attrs: Seq<(Seq<char>, Seq<(Seq<char>, MergedType)>)>,
}

/// An index without entries.
pub open spec fn no_index() -> IndexModel {
    IndexModel { arrays: Seq::empty(), global_attrs: Seq::empty(), array_attrs: Seq::empty() }
}

/// The names of each table of an index are distinct.
pub open spec fn distinct_entries(ix: IndexModel) -> bool {
    &&& keys_distinct(ix.arrays)
    &&& keys_distinct(ix.global_attrs)
    &&& keys_distinct(ix.array_attrs)
    &&& forall|i: int|
        0 <= i < ix.array_attrs.len() ==> keys_distinct((#[trigger] ix.array_attrs[i]).1)
}

/// The keys of one array's attributes.
pub open spec fn notes_of(ix: IndexModel, array: Seq<char>) -> Seq<(Seq<char>, MergedType)> {
    match value_of(ix.array_attrs, array) {
        Some(attrs) => attrs,
        None => Seq::empty(),
    }
}

/// The merged type the index holds for a key.
pub open spec fn entry_of(ix: IndexModel, key: ColumnKey<Seq<char>>) -> Option<MergedType> {
    match key {
        ColumnKey::Array(a) => match value_of(ix.arrays, a) {
            Some(e) => Some(e.dtype),
            None => None,
        },
        ColumnKey::GlobalAttr(k) => value_of(ix.global_attrs, k),
        ColumnKey::ArrayAttr(a, k) => value_of(notes_of(ix, a), k),
    }
}

/// An entry after one more contribution.
pub open spec fn raised(entry: Option<MergedType>, ty: DType) -> MergedType {
    added(
        match entry {
            Some(m) => m,
            None => no_type(),
        },
        ty,
    )
}

/// An index after one more contribution to a key. The codec of an array is
/// that of its first contribution.
pub open spec fn indexed(
    ix: IndexModel,
    key: ColumnKey<Seq<char>>,
    ty: DType,
    codec: Codec,
) -> IndexModel {
    let entry = raised(entry_of(ix, key), ty);
    match key {
        ColumnKey::Array(a) => IndexModel {
            arrays: with_entry(
                ix.arrays,
                a,
                ArrayEntry {
                    dtype: entry,
                    codec: match value_of(ix.arrays, a) {
                        Some(e) => e.codec,
                        None => codec,
                    },
                },
            ),
            ..ix
        },
        ColumnKey::GlobalAttr(k) => IndexModel {
            global_attrs: with_entry(ix.global_attrs, k, entry),
            ..ix
        },
        ColumnKey::ArrayAttr(a, k) => IndexModel {
            array_attrs: with_entry(ix.array_attrs, a, with_entry(notes_of(ix, a), k, entry)),
            ..ix
        },
    }
}

/// A contribution changes the entry of its key and no other.
pub proof fn lemma_indexed(
    ix: IndexModel,
    key: ColumnKey<Seq<char>>,
    ty: DType,
    codec: Codec,
    other: ColumnKey<Seq<char>>,
)
    requires
        distinct_entries(ix),
    ensures
        distinct_entries(indexed(ix, key, ty, codec)),
        entry_of(indexed(ix, key, ty, codec), other) == (if other == key {
            Some(raised(entry_of(ix, key), ty))
        } else {
            entry_of(ix, other)
        }),
{
    let after = indexed(ix, key, ty, codec);
    let entry = raised(entry_of(ix, key), ty);
    match key {
        ColumnKey::Array(a) => {
            let value = ArrayEntry {
                dtype: entry,
                codec: match value_of(ix.arrays, a) {
                    Some(e) => e.codec,
                    None => codec,
                },
            };
            law_get_after_set(ix.arrays, a, value, a);
            match other {
                ColumnKey::Array(b) => {
                    law_get_after_set(ix.arrays, a, value, b);
                },
                _ => {},
            }
        },
        ColumnKey::GlobalAttr(k) => {
            law_get_after_set(ix.global_attrs, k, entry, k);
            match other {
                ColumnKey::GlobalAttr(b) => {
                    law_get_after_set(ix.global_attrs, k, entry, b);
                },
                _ => {},
            }
        },
        ColumnKey::ArrayAttr(a, k) => {
            let inner = notes_of(ix, a);
            if has_key(ix.array_attrs, a) {
                let i = key_index(ix.array_attrs, a);
                assert(ix.array_attrs[i].0 == a);
                assert(keys_distinct(ix.array_attrs[i].1));
            }
            let more = with_entry(inner, k, entry);
            law_get_after_set(inner, k, entry, k);
            law_get_after_set(ix.array_attrs, a, more, a);
            assert forall|i: int| 0 <= i < after.array_attrs.len() implies keys_distinct(
                (#[trigger] after.array_attrs[i]).1,
            ) by {
                if i < ix.array_attrs.len() && ix.array_attrs[i] == after.array_attrs[i] {
                    assert(keys_distinct(ix.array_attrs[i].1));
                }
            }
            match other {
                ColumnKey::ArrayAttr(b, n) => {
                    law_get_after_set(ix.array_attrs, a, more, b);
                    if b == a {
                        law_get_after_set(inner, k, entry, n);
                    }
                },
                _ => {},
            }
        },
    }
}

/// Every array and attribute key of a store, with the type it holds.
#[derive(Debug)]
pub struct TypeIndex {
    arrays: Table<ArrayEntry>,
    global_attrs: Table<MergedType>,
    array_attrs: Table<Table<MergedType>>,
}

impl View for TypeIndex {
    type V = IndexModel;

    closed spec fn view(&self) -> IndexModel {
        IndexModel {
            arrays: self.arrays@,
            global_attrs: self.global_attrs@,
            array_attrs: viewed(self.array_attrs@),
        }
    }
}

fn raise(entry: Option<MergedType>, ty: &DType) -> (m: MergedType)
    requires
        entry matches Some(e) ==> e.contributors < usize::MAX,
    ensures
        m == raised(entry, *ty),
{
    match entry {
        Some(m) => m.add(ty),
        None => MergedType::new().add(ty),
    }
}

impl TypeIndex {
    #[verifier::type_invariant]
    pub open spec fn well_formed(self) -> bool {
        distinct_entries(self@)
    }

    /// An index without entries.
    pub fn new() -> (index: Self)
        ensures
            index@ == no_index(),
    {
        let array_attrs: Table<Table<MergedType>> = Table::new();
        assert(viewed(array_attrs@) =~= Seq::empty());
        TypeIndex { arrays: Table::new(), global_attrs: Table::new(), array_attrs }
    }

    /// Folds an array declaration into the index. The codec counts only the
    /// first time the array name is seen.
    pub fn record_array(&mut self, array: &str, dtype: &DType, codec: Codec)
        requires
            entry_of(old(self)@, ColumnKey::Array(array@)) matches Some(m) ==> m.contributors
                < usize::MAX,
        ensures
            final(self)@ == indexed(old(self)@, ColumnKey::Array(array@), *dtype, codec),
    {
        let ghost start = self@;
        let mut whole = TypeIndex::new();
        std::mem::swap(self, &mut whole);
        proof {
            use_type_invariant(&whole);
            lemma_indexed(
                start,
                ColumnKey::Array(array@),
                *dtype,
                codec,
                ColumnKey::Array(array@),
            );
        }
        let TypeIndex { mut arrays, global_attrs, array_attrs } = whole;
        let place = arrays.position(array);
        match place {
            Some(i) => {
                let ghost before = arrays@;
                let blank = ArrayEntry { dtype: MergedType::new(), codec };
                let entry = arrays.replace_at(i, blank);
                let raised = ArrayEntry {
                    dtype: raise(Some(entry.dtype), dtype),
                    codec: entry.codec,
                };
                let ghost given = raised;
                arrays.replace_at(i, raised);
                assert(arrays@ =~= with_entry(before, array@, given));
            },
            None => {
                arrays.insert(array.to_owned(), ArrayEntry { dtype: raise(None, dtype), codec });
            },
        }
        *self = TypeIndex { arrays, global_attrs, array_attrs };
    }

    /// Folds a dataset-level attribute declaration into the index.
    pub fn record_global_attr(&mut self, key: &str, ty: &DType)
        requires
            entry_of(old(self)@, ColumnKey::GlobalAttr(key@)) matches Some(m) ==> m.contributors
                < usize::MAX,
        ensures
            forall|codec: Codec|
                final(self)@ == #[trigger] indexed(
                    old(self)@,
                    ColumnKey::GlobalAttr(key@),
                    *ty,
                    codec,
                ),
    {
        let ghost start = self@;
        let mut whole = TypeIndex::new();
        std::mem::swap(self, &mut whole);
        proof {
            use_type_invariant(&whole);
            lemma_indexed(
                start,
                ColumnKey::GlobalAttr(key@),
                *ty,
                Codec::Zstd,
                ColumnKey::GlobalAttr(key@),
            );
        }
        let TypeIndex { arrays, mut global_attrs, array_attrs } = whole;
        raise_in(&mut global_attrs, key, ty);
        *self = TypeIndex { arrays, global_attrs, array_attrs };
    }

    /// Folds a declaration of an array's attribute into the index.
    pub fn record_array_attr(&mut self, array: &str, key: &str, ty: &DType)
        requires
            entry_of(old(self)@, ColumnKey::ArrayAttr(array@, key@)) matches Some(m)
                ==> m.contributors < usize::MAX,
        ensures
            forall|codec: Codec|
                final(self)@ == #[trigger] indexed(
                    old(self)@,
                    ColumnKey::ArrayAttr(array@, key@),
                    *ty,
                    codec,
                ),
    {
        let ghost start = self@;
        let mut whole = TypeIndex::new();
        std::mem::swap(self, &mut whole);
        proof {
            use_type_invariant(&whole);
            lemma_indexed(
                start,
                ColumnKey::ArrayAttr(array@, key@),
                *ty,
                Codec::Zstd,
                ColumnKey::ArrayAttr(array@, key@),
            );
        }
        let TypeIndex { arrays, global_attrs, mut array_attrs } = whole;
        let ghost before = array_attrs@;
        let place = array_attrs.position(array);
        proof {
            lemma_viewed(before, array@);
        }
        let mut inner: Table<MergedType> = Table::new();
        match place {
            Some(i) => {
                inner = array_attrs.replace_at(i, inner);
            },
            None => {},
        }
        assert(inner@ == notes_of(start, array@));
        raise_in(&mut inner, key, ty);
        let ghost given = inner;
        proof {
            lemma_viewed_with_entry(before, array@, given);
        }
        match place {
            Some(i) => {
                array_attrs.replace_at(i, inner);
                assert(array_attrs@ =~= with_entry(before, array@, given));
            },
            None => {
                array_attrs.insert(array.to_owned(), inner);
            },
        }
        *self = TypeIndex { arrays, global_attrs, array_attrs };
    }

    /// What an array write from a dataset that declares the name, or does not,
    /// must satisfy. `None` if the array name is unknown.
    pub fn array_constraint(&self, array: &str, owner_declares: bool) -> (c: Option<Constraint>)
        requires
            owner_declares ==> (entry_of(self@, ColumnKey::Array(array@)) matches Some(m)
                ==> m.contributors >= 1),
        ensures
            c == answer_of(self@, ColumnKey::Array(array@), owner_declares),
    {
        match self.arrays.get(array) {
            Some(e) => Some(e.dtype.constraint(owner_declares)),
            None => None,
        }
    }

    /// As [`array_constraint`](Self::array_constraint), for a dataset-level
    /// attribute.
    pub fn global_attr_constraint(&self, key: &str, owner_declares: bool) -> (c: Option<Constraint>)
        requires
            owner_declares ==> (entry_of(self@, ColumnKey::GlobalAttr(key@)) matches Some(m)
                ==> m.contributors >= 1),
        ensures
            c == answer_of(self@, ColumnKey::GlobalAttr(key@), owner_declares),
    {
        match self.global_attrs.get(key) {
            Some(m) => Some(m.constraint(owner_declares)),
            None => None,
        }
    }

    /// As [`array_constraint`](Self::array_constraint), for an attribute of an
    /// array.
    pub fn array_attr_constraint(&self, array: &str, key: &str, owner_declares: bool) -> (c: Option<
        Constraint,
    >)
        requires
            owner_declares ==> (entry_of(self@, ColumnKey::ArrayAttr(array@, key@)) matches Some(m)
                ==> m.contributors >= 1),
        ensures
            c == answer_of(self@, ColumnKey::ArrayAttr(array@, key@), owner_declares),
    {
        let inner = self.array_attrs.get(array);
        proof {
            lemma_viewed(self.array_attrs@, array@);
        }
        match inner {
            Some(table) => match table.get(key) {
                Some(m) => Some(m.constraint(owner_declares)),
                None => None,
            },
            None => None,
        }
    }

    /// Codec of the file that backs `array`, from the first dataset that
    /// declared it.
    pub fn array_codec(&self, array: &str) -> (codec: Option<Codec>)
        ensures
            codec == codec_of(self@, array@),
    {
        match self.arrays.get(array) {
            Some(e) => Some(e.codec),
            None => None,
        }
    }

    /// Whether an array holds types that do not merge.
    pub fn array_is_conflicted(&self, array: &str) -> (conflicted: bool)
        ensures
            conflicted == (entry_of(self@, ColumnKey::Array(array@)) matches Some(m)
                && m.conflicted),
    {
        match self.arrays.get(array) {
            Some(e) => e.dtype.conflicted,
            None => false,
        }
    }
}

fn raise_in(table: &mut Table<MergedType>, key: &str, ty: &DType)
    requires
        value_of(old(table)@, key@) matches Some(m) ==> m.contributors < usize::MAX,
    ensures
        final(table)@ == with_entry(
            old(table)@,
            key@,
            raised(value_of(old(table)@, key@), *ty),
        ),
{
    let ghost before = table@;
    match table.position(key) {
        Some(i) => {
            let entry = table.replace_at(i, MergedType::new());
            let more = raise(Some(entry), ty);
            let ghost given = more;
            table.replace_at(i, more);
            assert(table@ =~= with_entry(before, key@, given));
        },
        None => {
            table.insert(key.to_owned(), raise(None, ty));
        },
    }
}

/// What the index says a write must satisfy. `None` for an unknown key.
pub open spec fn answer_of(
    ix: IndexModel,
    key: ColumnKey<Seq<char>>,
    owner_declares: bool,
) -> Option<Constraint> {
    match entry_of(ix, key) {
        Some(m) => Some(constraint_of(m, owner_declares)),
        None => None,
    }
}

/// The codec of the file that backs an array.
pub open spec fn codec_of(ix: IndexModel, array: Seq<char>) -> Option<Codec> {
    match value_of(ix.arrays, array) {
        Some(e) => Some(e.codec),
        None => None,
    }
}

/// The codec of an array is that of its first contribution, and no later one
/// changes it. A contribution to anything else leaves it alone.
pub proof fn law_the_first_codec_stays(
    ix: IndexModel,
    array: Seq<char>,
    other: Seq<char>,
    key: Seq<char>,
    ty: DType,
    codec: Codec,
)
    requires
        distinct_entries(ix),
    ensures
        codec_of(ix, array) is None ==> codec_of(
            indexed(ix, ColumnKey::Array(array), ty, codec),
            array,
        ) == Some(codec),
        codec_of(ix, array) is Some ==> codec_of(
            indexed(ix, ColumnKey::Array(array), ty, codec),
            array,
        ) == codec_of(ix, array),
        other != array ==> codec_of(indexed(ix, ColumnKey::Array(other), ty, codec), array)
            == codec_of(ix, array),
        codec_of(indexed(ix, ColumnKey::GlobalAttr(key), ty, codec), array) == codec_of(ix, array),
        codec_of(indexed(ix, ColumnKey::ArrayAttr(other, key), ty, codec), array) == codec_of(
            ix,
            array,
        ),
{
    let mine = indexed(ix, ColumnKey::Array(array), ty, codec);
    let theirs = indexed(ix, ColumnKey::Array(other), ty, codec);
    law_get_after_set(ix.arrays, array, value_of(mine.arrays, array)->Some_0, array);
    lemma_indexed(ix, ColumnKey::Array(array), ty, codec, ColumnKey::Array(array));
    lemma_indexed(ix, ColumnKey::Array(other), ty, codec, ColumnKey::Array(array));
    let entry = ArrayEntry {
        dtype: raised(entry_of(ix, ColumnKey::Array(array)), ty),
        codec: match value_of(ix.arrays, array) {
            Some(e) => e.codec,
            None => codec,
        },
    };
    law_get_after_set(ix.arrays, array, entry, array);
    let entry = ArrayEntry {
        dtype: raised(entry_of(ix, ColumnKey::Array(other)), ty),
        codec: match value_of(ix.arrays, other) {
            Some(e) => e.codec,
            None => codec,
        },
    };
    law_get_after_set(ix.arrays, other, entry, array);
    assert(theirs.arrays == with_entry(ix.arrays, other, entry));
}

/// A dataset is bound by the others alone. With none, anything goes; with some
/// that merge, the merged type binds; and where they do not merge, the index
/// leaves the answer to a look at every dataset.
pub proof fn law_a_dataset_does_not_bind_itself(m: MergedType)
    ensures
        m.contributors == 1 ==> constraint_of(m, true) is Unconstrained,
        m.contributors == 0 ==> constraint_of(m, false) is Unconstrained,
        m.contributors >= 1 && m.conflicted ==> constraint_of(m, false) is NeedsScan,
        m.contributors >= 2 && m.conflicted ==> constraint_of(m, true) is NeedsScan,
        m.dtype matches Some(d) ==> (!m.conflicted && m.contributors >= 2 ==> constraint_of(m, true)
            == Constraint::Type(d)),
        m.dtype matches Some(d) ==> (!m.conflicted && m.contributors >= 1 ==> constraint_of(
            m,
            false,
        ) == Constraint::Type(d)),
{
}

} // verus!
