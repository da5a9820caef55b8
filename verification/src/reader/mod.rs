//! How a collection is read: what an open fetches, which datasets are visible,
//! and what a dataset declares.
//!
//! An open reads the footer and the deletion mask. Every question about names
//! and types is then answered from these two. The bytes of a segment are read
//! elsewhere; this module says which segment, and what to make of what it
//! holds.

pub mod open;
pub mod view;

use crate::config::Codec;
use crate::error::{Error, Result};
use crate::format::footer::{
    consistent, declared_by, has_segment, law_accepted_footers_are_the_consistent_ones,
    schema_resolves, verdict_of, CollectionFooter, FooterModel,
};
use crate::format::mask::{
    ascending, decode, in_increasing_order, lemma_ascending_lists, lists, mask_of,
};
use crate::format::pool::first_at;
use crate::schema::attr::Attr;
use crate::schema::dtype::DType;
use crate::schema::view::{array_model, key_at, SchemaView};
use crate::pruning::value::{law_values_of_one_variant_are_totally_ordered, StatModel};
use crate::stats::{
    below_or_equal, comparable, law_merged_statistics_cover_both, merged, ArrayStats, StatsModel,
};
use crate::table::{
    has_key, key_index, keys_distinct, law_distinct_pairs_fill_a_table, lemma_key_index, table_of,
    value_of, Table,
};
use crate::text::{
    comes_before, in_order, insert_in_order, law_text_order_is_total, same_text, text_before, texts,
};
use std::collections::BTreeSet;
use vstd::prelude::*;

verus! {

broadcast use {vstd::std_specs::btree::group_btree_axioms, vstd::laws_cmp::group_laws_cmp};

/// A dataset the deletion mask does not hide.
pub open spec fn visible(f: FooterModel, deleted: Set<u32>, i: int) -> bool {
    0 <= i < f.datasets.len() && !deleted.contains(i as u32)
}

/// The ordinal of a visible dataset.
pub open spec fn ordinal_of(f: FooterModel, deleted: Set<u32>, name: Seq<char>) -> Option<u32> {
    if has_key(f.datasets, name) && !deleted.contains(key_index(f.datasets, name) as u32) {
        Some(key_index(f.datasets, name) as u32)
    } else {
        None
    }
}

/// The names of the visible datasets among the first `n`, in write order.
pub open spec fn visible_names(f: FooterModel, deleted: Set<u32>, n: int) -> Seq<Seq<char>>
    decreases n,
{
    if n <= 0 {
        Seq::empty()
    } else if visible(f, deleted, n - 1) {
        visible_names(f, deleted, n - 1).push(f.datasets[n - 1].0)
    } else {
        visible_names(f, deleted, n - 1)
    }
}

/// A list of pool pairs holds a name.
pub open spec fn holds_name(pairs: Seq<(u32, u32)>, id: u32) -> bool {
    exists|k: int| 0 <= k < pairs.len() && (#[trigger] pairs[k]).0 == id
}

/// A dataset declares an array with this name.
pub open spec fn declares(f: FooterModel, i: int, id: u32) -> bool {
    holds_name(f.schemas[f.datasets[i].1 as int].arrays, id)
}

/// The names, as string pool positions, of the arrays that the visible datasets
/// declare.
pub open spec fn array_ids(f: FooterModel, deleted: Set<u32>) -> Set<u32> {
    Set::new(|id: u32| exists|i: int| visible(f, deleted, i) && #[trigger] declares(f, i, id))
}

/// A dataset declares an array of this name.
pub open spec fn declares_array(f: FooterModel, i: int, name: Seq<char>) -> bool {
    has_key(declared_by(f, f.datasets[i].1 as int).arrays, name)
}

/// A dataset declares an array of this name with this element type.
pub open spec fn types_array(f: FooterModel, i: int, name: Seq<char>, dtype: DType) -> bool {
    let arrays = declared_by(f, f.datasets[i].1 as int).arrays;
    exists|k: int| #[trigger] key_at(arrays, name, k) && arrays[k].1 == dtype
}

/// The names at some string pool positions.
pub open spec fn names_at(f: FooterModel, ids: Seq<u32>) -> Seq<Seq<char>> {
    Seq::new(ids.len(), |i: int| f.strings[ids[i] as int])
}

/// A footer whose ordinals and pool positions fit 32 bits and resolve, and a mask
/// that names only its datasets.
pub open spec fn readable(f: FooterModel, deleted: Set<u32>) -> bool {
    &&& consistent(f)
    &&& keys_distinct(f.datasets)
    &&& f.datasets.len() <= 0x1_0000_0000
    &&& f.strings.len() <= 0x1_0000_0000
    &&& forall|o: u32| #[trigger] deleted.contains(o) ==> o < f.datasets.len()
}

/// What a mask file holds.
pub open spec fn mask_bytes(mask: Option<&[u8]>) -> Option<Seq<u8>> {
    match mask {
        Some(bytes) => Some(bytes@),
        None => None,
    }
}

/// Which datasets of a collection are deleted, or why it does not open: its
/// footer is refused first, then its mask.
pub open spec fn opened(f: FooterModel, mask: Option<Seq<u8>>) -> std::result::Result<
    Set<u32>,
    Error<Seq<char>>,
> {
    match verdict_of(f) {
        Err(e) => Err(e),
        Ok(()) => match mask {
            None => Ok(Set::empty()),
            Some(bytes) => mask_of(bytes, f.datasets.len()),
        },
    }
}

/// A delete hides the datasets it names and no other: every other dataset keeps
/// its ordinal, and a hidden one stays hidden.
pub proof fn law_delete_moves_no_ordinal(
    f: FooterModel,
    deleted: Set<u32>,
    more: Set<u32>,
    name: Seq<char>,
)
    ensures
        ordinal_of(f, deleted, name) is None ==> ordinal_of(f, deleted.union(more), name) is None,
        ordinal_of(f, deleted, name) matches Some(o) ==> ordinal_of(f, deleted.union(more), name)
            == (if more.contains(o) {
            None
        } else {
            Some(o)
        }),
{
}

/// The listed datasets are just the visible ones.
pub proof fn law_listed_datasets_are_the_visible_ones(
    f: FooterModel,
    deleted: Set<u32>,
    n: int,
    name: Seq<char>,
)
    requires
        readable(f, deleted),
        n == f.datasets.len(),
    ensures
        visible_names(f, deleted, n).contains(name) <==> ordinal_of(f, deleted, name) is Some,
{
    lemma_visible_names(f, deleted, n, name);
    if has_key(f.datasets, name) {
        let i = key_index(f.datasets, name);
        assert(f.datasets[i].0 == name);
    }
    if visible_names(f, deleted, n).contains(name) {
        let i = choose|i: int|
            0 <= i < n && visible(f, deleted, i) && (#[trigger] f.datasets[i]).0 == name;
        lemma_key_index(f.datasets, i);
    }
}

proof fn lemma_visible_names(f: FooterModel, deleted: Set<u32>, n: int, name: Seq<char>)
    requires
        n <= f.datasets.len(),
    ensures
        visible_names(f, deleted, n).contains(name) <==> exists|i: int|
            0 <= i < n && visible(f, deleted, i) && (#[trigger] f.datasets[i]).0 == name,
    decreases n,
{
    if n > 0 {
        lemma_visible_names(f, deleted, n - 1, name);
        let front = visible_names(f, deleted, n - 1);
        let all = visible_names(f, deleted, n);
        if visible(f, deleted, n - 1) {
            assert(all =~= front.push(f.datasets[n - 1].0));
            if front.contains(name) {
                let k = choose|k: int| 0 <= k < front.len() && front[k] == name;
                assert(all[k] == name);
            }
            if f.datasets[n - 1].0 == name {
                assert(all[all.len() - 1] == name);
            }
            if all.contains(name) && f.datasets[n - 1].0 != name {
                let k = choose|k: int| 0 <= k < all.len() && all[k] == name;
                assert(front[k] == name);
            }
        }
        if exists|i: int| 0 <= i < n && visible(f, deleted, i) && (#[trigger] f.datasets[i]).0 == name {
            let i = choose|i: int|
                0 <= i < n && visible(f, deleted, i) && (#[trigger] f.datasets[i]).0 == name;
            if i < n - 1 {
                assert(0 <= i < n - 1 && visible(f, deleted, i) && f.datasets[i].0 == name);
            }
        }
    }
}

/// A set of numbers below `n` has at most `n` members.
proof fn lemma_numbers_below(set: Set<u32>, n: nat)
    requires
        forall|o: u32| #[trigger] set.contains(o) ==> o < n,
        n <= 0x1_0000_0000,
    ensures
        set.finite(),
        set.len() <= n,
    decreases n,
{
    if n == 0 {
        assert(set =~= Set::empty());
    } else {
        let top = (n - 1) as u32;
        lemma_numbers_below(set.remove(top), (n - 1) as nat);
        if set.contains(top) {
            assert(set =~= set.remove(top).insert(top));
        } else {
            assert(set =~= set.remove(top));
        }
    }
}

/// An open collection: what it declares, and which datasets are hidden.
#[derive(Debug)]
pub struct Atlas {
    footer: CollectionFooter,
    /// Ordinals the deletion mask hides.
    deleted: BTreeSet<u32>,
    /// Size of the container file.
    container_bytes: u64,
}

impl Atlas {
    #[verifier::type_invariant]
    spec fn well_formed(self) -> bool {
        readable(self.footer@, self.deleted@)
    }

    /// What the footer of the collection says.
    pub closed spec fn declared(&self) -> FooterModel {
        self.footer@
    }

    /// The ordinals the deletion mask hides.
    pub closed spec fn hidden(&self) -> Set<u32> {
        self.deleted@
    }

    /// The size of the container file.
    pub closed spec fn size(&self) -> u64 {
        self.container_bytes
    }

    /// Opens a collection: checks its footer, and decodes the mask beside it.
    /// `mask` is what the mask file holds; without one nothing is deleted.
    pub fn open(footer: CollectionFooter, mask: Option<&[u8]>, container_bytes: u64) -> (atlas:
        Result<Self>)
        requires
            footer@.datasets.len() <= 0x1_0000_0000,
            footer@.strings.len() <= 0x1_0000_0000,
        ensures
            match atlas {
                Ok(atlas) => {
                    &&& opened(footer@, mask_bytes(mask)) == Ok::<Set<u32>, Error<Seq<char>>>(
                        atlas.hidden(),
                    )
                    &&& atlas.declared() == footer@
                    &&& atlas.size() == container_bytes
                },
                Err(e) => opened(footer@, mask_bytes(mask)) == Err::<Set<u32>, Error<Seq<char>>>(
                    e@,
                ),
            },
    {
        match footer.validate() {
            Ok(()) => {},
            Err(e) => {
                return Err(e);
            },
        }
        let count: usize = footer.datasets.len();
        let deleted: BTreeSet<u32> = match mask {
            None => BTreeSet::new(),
            Some(bytes) => match decode(bytes, count) {
                Ok(set) => set,
                Err(e) => {
                    return Err(e);
                },
            },
        };
        assert(mask is None ==> deleted@ =~= Set::empty());
        Ok(Atlas { footer, deleted, container_bytes })
    }

    /// The footer of the collection.
    pub fn footer(&self) -> (footer: &CollectionFooter)
        ensures
            footer@ == self.declared(),
            readable(footer@, self.hidden()),
    {
        proof {
            use_type_invariant(self);
        }
        &self.footer
    }

    /// Names of the live datasets, in write order. Deleted datasets stay out.
    pub fn list_datasets(&self) -> (names: Vec<String>)
        ensures
            texts(names@) == visible_names(
                self.declared(),
                self.hidden(),
                self.declared().datasets.len() as int,
            ),
    {
        proof {
            use_type_invariant(self);
        }
        let count: usize = self.footer.datasets.len();
        let mut names: Vec<String> = Vec::new();
        let mut i: usize = 0;
        assert(texts(names@) =~= visible_names(self.footer@, self.deleted@, 0));
        while i < count
            invariant
                i <= count,
                count == self.footer@.datasets.len(),
                count <= 0x1_0000_0000,
                texts(names@) == visible_names(self.footer@, self.deleted@, i as int),
            decreases count - i,
        {
            let ghost before = texts(names@);
            let ordinal: u32 = i as u32;
            if !self.deleted.contains(&ordinal) {
                names.push(self.footer.datasets.name_at(i).to_owned());
                assert(texts(names@) =~= before.push(self.footer@.datasets[i as int].0));
            }
            assert(visible(self.footer@, self.deleted@, i as int) == !self.deleted@.contains(
                ordinal,
            ));
            i += 1;
        }
        names
    }

    /// Names of the datasets the deletion mask hides, in write order.
    pub fn deleted_names(&self) -> (names: Vec<String>)
        ensures
            texts(names@) == hidden_names(
                self.declared(),
                self.hidden(),
                self.declared().datasets.len() as int,
            ),
    {
        proof {
            use_type_invariant(self);
        }
        let count: usize = self.footer.datasets.len();
        let mut names: Vec<String> = Vec::new();
        let mut i: usize = 0;
        assert(texts(names@) =~= hidden_names(self.footer@, self.deleted@, 0));
        while i < count
            invariant
                i <= count,
                count == self.footer@.datasets.len(),
                count <= 0x1_0000_0000,
                texts(names@) == hidden_names(self.footer@, self.deleted@, i as int),
            decreases count - i,
        {
            let ghost before = texts(names@);
            let ordinal: u32 = i as u32;
            if self.deleted.contains(&ordinal) {
                names.push(self.footer.datasets.name_at(i).to_owned());
                assert(texts(names@) =~= before.push(self.footer@.datasets[i as int].0));
            }
            i += 1;
        }
        names
    }

    /// The ordinal of a live dataset of this name.
    pub fn ordinal_of(&self, name: &str) -> (ordinal: Option<u32>)
        ensures
            ordinal == ordinal_of(self.declared(), self.hidden(), name@),
    {
        proof {
            use_type_invariant(self);
        }
        match self.footer.datasets.position(name) {
            Some(i) => {
                let ordinal: u32 = i as u32;
                if self.deleted.contains(&ordinal) {
                    None
                } else {
                    Some(ordinal)
                }
            },
            None => None,
        }
    }

    /// Whether a live dataset of this name exists.
    pub fn dataset_exists(&self, name: &str) -> (exists_: bool)
        ensures
            exists_ == ordinal_of(self.declared(), self.hidden(), name@) is Some,
    {
        self.ordinal_of(name).is_some()
    }

    /// How many datasets are live.
    pub fn dataset_count(&self) -> (count: usize)
        ensures
            count == self.declared().datasets.len() - self.hidden().len(),
            count == visible_names(
                self.declared(),
                self.hidden(),
                self.declared().datasets.len() as int,
            ).len(),
    {
        proof {
            use_type_invariant(self);
            lemma_numbers_below(self.deleted@, self.footer@.datasets.len());
            lemma_count(self.footer@, self.deleted@, self.footer@.datasets.len() as int);
            assert(self.deleted@.filter(|o: u32| o < self.footer@.datasets.len())
                =~= self.deleted@);
        }
        self.footer.datasets.len() - self.deleted.len()
    }

    /// When the collection was written, in milliseconds since the Unix epoch.
    pub fn created_unix_ms(&self) -> (ms: i64)
        ensures
            ms == self.declared().created_unix_ms,
    {
        self.footer.created_unix_ms
    }

    /// The container format version of this collection.
    pub fn format_version(&self) -> (version: u32)
        ensures
            version == self.declared().version,
    {
        self.footer.version
    }

    /// The block codec the writer used. For information only.
    pub fn codec(&self) -> (codec: Codec)
        ensures
            codec == self.declared().codec,
    {
        self.footer.codec
    }

    /// Size of the container file in bytes.
    pub fn container_bytes(&self) -> (bytes: u64)
        ensures
            bytes == self.size(),
    {
        self.container_bytes
    }

    /// Datasets in the container, with those the mask hides.
    pub fn total_datasets(&self) -> (count: usize)
        ensures
            count == self.declared().datasets.len(),
    {
        self.footer.datasets.len()
    }

    /// How many distinct schemas the datasets share between them.
    pub fn interned_schemas(&self) -> (count: usize)
        ensures
            count == self.declared().schemas.len(),
    {
        self.footer.schema_pool.len()
    }
}

/// The names of the hidden datasets among the first `n`, in write order.
pub open spec fn hidden_names(f: FooterModel, deleted: Set<u32>, n: int) -> Seq<Seq<char>>
    decreases n,
{
    if n <= 0 {
        Seq::empty()
    } else if deleted.contains((n - 1) as u32) {
        hidden_names(f, deleted, n - 1).push(f.datasets[n - 1].0)
    } else {
        hidden_names(f, deleted, n - 1)
    }
}

/// The visible datasets are those the mask leaves over.
proof fn lemma_count(f: FooterModel, deleted: Set<u32>, n: int)
    requires
        deleted.finite(),
        0 <= n <= f.datasets.len(),
        n <= 0x1_0000_0000,
    ensures
        visible_names(f, deleted, n).len() + deleted.filter(|o: u32| o < n).len() == n,
    decreases n,
{
    let below = deleted.filter(|o: u32| o < n);
    if n == 0 {
        assert(below =~= Set::empty());
    } else {
        let last = (n - 1) as u32;
        let fewer = deleted.filter(|o: u32| o < n - 1);
        lemma_count(f, deleted, n - 1);
        if deleted.contains(last) {
            assert(below =~= fewer.insert(last));
        } else {
            assert(below =~= fewer);
        }
    }
}

fn add_names(ids: &mut BTreeSet<u32>, pairs: &Vec<(u32, u32)>)
    ensures
        forall|id: u32| #[trigger]
            final(ids)@.contains(id) <==> old(ids)@.contains(id) || holds_name(pairs@, id),
{
    let mut k: usize = 0;
    while k < pairs.len()
        invariant
            k <= pairs@.len(),
            forall|id: u32| #[trigger]
                ids@.contains(id) <==> old(ids)@.contains(id) || holds_name(
                    pairs@.take(k as int),
                    id,
                ),
        decreases pairs@.len() - k,
    {
        let ghost before = ids@;
        let name: u32 = pairs[k].0;
        ids.insert(name);
        proof {
            let shorter = pairs@.take(k as int);
            let longer = pairs@.take(k + 1);
            assert forall|id: u32| #[trigger]
                ids@.contains(id) <==> old(ids)@.contains(id) || holds_name(longer, id) by {
                if holds_name(longer, id) {
                    let m = choose|m: int| 0 <= m < longer.len() && (#[trigger] longer[m]).0 == id;
                    if m < k {
                        assert(shorter[m].0 == id);
                        assert(before.contains(id));
                    }
                }
                if before.contains(id) && holds_name(shorter, id) {
                    let m = choose|m: int|
                        0 <= m < shorter.len() && (#[trigger] shorter[m]).0 == id;
                    assert(longer[m].0 == id);
                }
                if id == name {
                    assert(longer[k as int].0 == id);
                }
            }
        }
        k += 1;
    }
    assert(pairs@.take(k as int) =~= pairs@);
}

impl Atlas {
    fn array_ids(&self) -> (ids: BTreeSet<u32>)
        ensures
            ids@ == array_ids(self.declared(), self.hidden()),
    {
        proof {
            use_type_invariant(self);
        }
        let count: usize = self.footer.datasets.len();
        let mut ids: BTreeSet<u32> = BTreeSet::new();
        let mut i: usize = 0;
        while i < count
            invariant
                i <= count,
                count == self.footer@.datasets.len(),
                readable(self.footer@, self.deleted@),
                forall|id: u32| #[trigger]
                    ids@.contains(id) <==> exists|n: int|
                        n < i && visible(self.footer@, self.deleted@, n) && #[trigger] declares(
                            self.footer@,
                            n,
                            id,
                        ),
            decreases count - i,
        {
            let ghost before = ids@;
            let ordinal: u32 = i as u32;
            if !self.deleted.contains(&ordinal) {
                let schema: u32 = *self.footer.datasets.value_at(i);
                assert(self.footer@.datasets[i as int].1 < self.footer@.schemas.len());
                add_names(&mut ids, &self.footer.schema_of(schema).arrays);
            }
            proof {
                assert forall|id: u32| #[trigger]
                    ids@.contains(id) <==> exists|n: int|
                        n < i + 1 && visible(self.footer@, self.deleted@, n)
                            && #[trigger] declares(self.footer@, n, id) by {
                    if before.contains(id) {
                        let n = choose|n: int|
                            n < i && visible(self.footer@, self.deleted@, n)
                                && #[trigger] declares(self.footer@, n, id);
                        assert(n < i + 1 && declares(self.footer@, n, id));
                    } else if ids@.contains(id) {
                        assert(declares(self.footer@, i as int, id));
                    }
                    if exists|n: int|
                        n < i + 1 && visible(self.footer@, self.deleted@, n)
                            && #[trigger] declares(self.footer@, n, id) {
                        let n = choose|n: int|
                            n < i + 1 && visible(self.footer@, self.deleted@, n)
                                && #[trigger] declares(self.footer@, n, id);
                        if n < i {
                            assert(before.contains(id));
                        }
                    }
                }
            }
            i += 1;
        }
        assert(ids@ =~= array_ids(self.footer@, self.deleted@)) by {
            assert forall|id: u32| #[trigger]
                ids@.contains(id) <==> array_ids(self.footer@, self.deleted@).contains(id) by {
                if array_ids(self.footer@, self.deleted@).contains(id) {
                    let n = choose|n: int|
                        visible(self.footer@, self.deleted@, n) && #[trigger] declares(
                            self.footer@,
                            n,
                            id,
                        );
                    assert(n < i && declares(self.footer@, n, id));
                }
            }
        }
        ids
    }

    /// The element type of an array in the first live dataset that declares it.
    /// `None` where no live dataset does.
    pub fn array_dtype(&self, array: &str) -> (dtype: Option<DType>)
        ensures
            match dtype {
                Some(d) => exists|i: int|
                    {
                        &&& #[trigger] visible(self.declared(), self.hidden(), i)
                        &&& types_array(self.declared(), i, array@, d)
                        &&& forall|j: int|
                            j < i && #[trigger] visible(self.declared(), self.hidden(), j)
                                ==> !declares_array(self.declared(), j, array@)
                    },
                None => forall|j: int| #[trigger]
                    visible(self.declared(), self.hidden(), j) ==> !declares_array(
                        self.declared(),
                        j,
                        array@,
                    ),
            },
    {
        proof {
            use_type_invariant(self);
        }
        let count: usize = self.footer.datasets.len();
        let mut i: usize = 0;
        while i < count
            invariant
                i <= count,
                count == self.footer@.datasets.len(),
                readable(self.footer@, self.deleted@),
                forall|j: int|
                    j < i && #[trigger] visible(self.footer@, self.deleted@, j) ==> !declares_array(
                        self.footer@,
                        j,
                        array@,
                    ),
            decreases count - i,
        {
            let ordinal: u32 = i as u32;
            if !self.deleted.contains(&ordinal) {
                let schema: u32 = *self.footer.datasets.value_at(i);
                assert(self.footer@.datasets[i as int].1 < self.footer@.schemas.len());
                match SchemaView::new(&self.footer, schema).get(array) {
                    Some(meta) => {
                        let dtype: DType = meta.dtype().clone();
                        assert(visible(self.declared(), self.hidden(), i as int));
                        assert(types_array(self.declared(), i as int, array@, dtype)) by {
                            let d = declared_by(self.footer@, schema as int);
                            let k = choose|k: int| #[trigger]
                                key_at(d.arrays, array@, k) && meta@ == array_model(d, k);
                            assert(d.arrays[k].1 == dtype);
                        }
                        assert forall|j: int|
                            j < i && #[trigger] visible(
                                self.declared(),
                                self.hidden(),
                                j,
                            ) implies !declares_array(self.declared(), j, array@) by {
                            assert(visible(self.footer@, self.deleted@, j));
                        }
                        return Some(dtype);
                    },
                    None => {},
                }
            }
            i += 1;
        }
        None
    }

    /// Every distinct array name across the live datasets, sorted.
    pub fn list_arrays(&self) -> (names: Vec<String>)
        ensures
            in_order(texts(names@)),
            texts(names@).to_multiset() == names_at(
                self.declared(),
                ascending(array_ids(self.declared(), self.hidden())),
            ).to_multiset(),
    {
        proof {
            use_type_invariant(self);
        }
        let ids = self.array_ids();
        let list = in_increasing_order(&ids);
        let mut names: Vec<String> = Vec::new();
        let mut i: usize = 0;
        assert(texts(names@) =~= names_at(self.footer@, list@.take(0)));
        while i < list.len()
            invariant
                i <= list@.len(),
                readable(self.footer@, self.deleted@),
                lists(list@, array_ids(self.footer@, self.deleted@)),
                in_order(texts(names@)),
                texts(names@).to_multiset() == names_at(
                    self.footer@,
                    list@.take(i as int),
                ).to_multiset(),
            decreases list@.len() - i,
        {
            let id: u32 = list[i];
            proof {
                lemma_listed_name_is_pooled(self.footer@, self.deleted@, list@, i as int);
            }
            let name = self.footer.string_pool[id as usize].as_str().to_owned();
            insert_in_order(&mut names, name);
            proof {
                let shorter = names_at(self.footer@, list@.take(i as int));
                let longer = names_at(self.footer@, list@.take(i + 1));
                assert(longer =~= shorter.push(self.footer@.strings[id as int]));
                vstd::seq_lib::to_multiset_build(shorter, self.footer@.strings[id as int]);
            }
            i += 1;
        }
        assert(list@.take(i as int) =~= list@);
        names
    }
}

proof fn lemma_listed_name_is_pooled(f: FooterModel, deleted: Set<u32>, list: Seq<u32>, i: int)
    requires
        readable(f, deleted),
        lists(list, array_ids(f, deleted)),
        0 <= i < list.len(),
    ensures
        list[i] < f.strings.len(),
{
    let id = list[i];
    assert(list.contains(id));
    assert(array_ids(f, deleted).contains(id));
    let n = choose|n: int| visible(f, deleted, n) && #[trigger] declares(f, n, id);
    let schema = f.datasets[n].1;
    assert(schema_resolves(f, schema as int));
    let pairs = f.schemas[schema as int].arrays;
    let k = choose|k: int| 0 <= k < pairs.len() && (#[trigger] pairs[k]).0 == id;
    assert(pairs[k].0 < f.strings.len());
}

/// The listed arrays are just those a visible dataset declares, and where the
/// string pool holds nothing twice, no name is listed twice.
pub proof fn law_listed_arrays_are_the_declared_ones(
    f: FooterModel,
    deleted: Set<u32>,
    names: Seq<Seq<char>>,
    name: Seq<char>,
)
    requires
        readable(f, deleted),
        names.to_multiset() == names_at(f, ascending(array_ids(f, deleted))).to_multiset(),
    ensures
        names.contains(name) <==> exists|i: int|
            visible(f, deleted, i) && #[trigger] declares_array(f, i, name),
        f.strings.no_duplicates() ==> names.no_duplicates(),
{
    let ids = ascending(array_ids(f, deleted));
    lemma_ascending_lists(array_ids(f, deleted));
    let listed = names_at(f, ids);
    vstd::seq_lib::to_multiset_contains(names, name);
    vstd::seq_lib::to_multiset_contains(listed, name);
    if listed.contains(name) {
        let j = choose|j: int| 0 <= j < listed.len() && listed[j] == name;
        assert(ids.contains(ids[j]));
        assert(array_ids(f, deleted).contains(ids[j]));
        let i = choose|i: int| visible(f, deleted, i) && #[trigger] declares(f, i, ids[j]);
        let pairs = f.schemas[f.datasets[i].1 as int].arrays;
        let k = choose|k: int| 0 <= k < pairs.len() && (#[trigger] pairs[k]).0 == ids[j];
        assert(declared_by(f, f.datasets[i].1 as int).arrays[k].0 == name);
        assert(declares_array(f, i, name));
    }
    if exists|i: int| visible(f, deleted, i) && #[trigger] declares_array(f, i, name) {
        let i = choose|i: int| visible(f, deleted, i) && #[trigger] declares_array(f, i, name);
        let arrays = declared_by(f, f.datasets[i].1 as int).arrays;
        let k = choose|k: int| 0 <= k < arrays.len() && #[trigger] arrays[k].0 == name;
        let id = f.schemas[f.datasets[i].1 as int].arrays[k].0;
        assert(declares(f, i, id));
        assert(array_ids(f, deleted).contains(id));
        assert(ids.contains(id));
        let j = ids.index_of(id);
        assert(listed[j] == name);
    }
    if f.strings.no_duplicates() {
        assert forall|a: int, b: int| 0 <= a < listed.len() && 0 <= b < listed.len() && a
            != b implies listed[a] != listed[b] by {
            lemma_listed_name_is_pooled(f, deleted, ids, a);
            lemma_listed_name_is_pooled(f, deleted, ids, b);
            assert(ids[a] != ids[b]);
        }
        listed.lemma_multiset_has_no_duplicates();
        assert forall|x: Seq<char>| names.to_multiset().contains(
            x,
        ) implies names.to_multiset().count(x) == 1 by {
            assert(listed.to_multiset().contains(x));
        }
        names.lemma_multiset_has_no_duplicates_conv();
    }
}

/// Every name is that of a visible dataset.
pub open spec fn all_visible(f: FooterModel, deleted: Set<u32>, names: Seq<Seq<char>>) -> bool {
    forall|i: int| 0 <= i < names.len() ==> ordinal_of(f, deleted, #[trigger] names[i]) is Some
}

/// A name of no visible dataset, in front of which no other such name sorts.
pub open spec fn first_missing(
    f: FooterModel,
    deleted: Set<u32>,
    names: Seq<Seq<char>>,
    name: Seq<char>,
) -> bool {
    &&& names.contains(name)
    &&& ordinal_of(f, deleted, name) is None
    &&& forall|i: int|
        0 <= i < names.len() && ordinal_of(f, deleted, #[trigger] names[i]) is None
            ==> !text_before(names[i], name)
}

/// The ordinals of some names.
pub open spec fn ordinals_of(f: FooterModel, deleted: Set<u32>, names: Seq<Seq<char>>) -> Set<
    u32,
> {
    Set::new(
        |o: u32|
            exists|i: int|
                0 <= i < names.len() && ordinal_of(f, deleted, #[trigger] names[i]) == Some(o),
    )
}

/// A repeated name counts once: there are as many ordinals as distinct names.
pub proof fn law_repeated_names_count_once(
    f: FooterModel,
    deleted: Set<u32>,
    names: Seq<Seq<char>>,
)
    requires
        readable(f, deleted),
        all_visible(f, deleted, names),
    ensures
        ordinals_of(f, deleted, names).len() == names.to_set().len(),
{
    let place = |name: Seq<char>| ordinal_of(f, deleted, name)->Some_0;
    let distinct = names.to_set();
    let ordinals = ordinals_of(f, deleted, names);
    vstd::seq_lib::seq_to_set_is_finite(names);
    assert forall|a: Seq<char>, b: Seq<char>|
        distinct.contains(a) && distinct.contains(b) && place(a) == place(b) implies a == b by {
        let i = names.index_of(a);
        let j = names.index_of(b);
        assert(ordinal_of(f, deleted, names[i]) is Some);
        assert(ordinal_of(f, deleted, names[j]) is Some);
        assert(f.datasets[key_index(f.datasets, a)].0 == a);
        assert(f.datasets[key_index(f.datasets, b)].0 == b);
    }
    assert(distinct.map(place) =~= ordinals) by {
        assert forall|o: u32| distinct.map(place).contains(o) <==> ordinals.contains(o) by {
            if distinct.map(place).contains(o) {
                let a = choose|a: Seq<char>| distinct.contains(a) && place(a) == o;
                let i = names.index_of(a);
                assert(ordinal_of(f, deleted, names[i]) == Some(o));
            }
            if ordinals.contains(o) {
                let i = choose|i: int|
                    0 <= i < names.len() && ordinal_of(f, deleted, #[trigger] names[i]) == Some(o);
                assert(distinct.contains(names[i]));
                assert(place(names[i]) == o);
            }
        }
    }
    vstd::set_lib::lemma_map_size(distinct, ordinals, place);
}

/// A delete hides every dataset it names.
pub proof fn law_deleted_datasets_are_hidden(
    f: FooterModel,
    deleted: Set<u32>,
    names: Seq<Seq<char>>,
    i: int,
)
    requires
        0 <= i < names.len(),
    ensures
        ordinal_of(f, deleted.union(ordinals_of(f, deleted, names)), names[i]) is None,
{
    if ordinal_of(f, deleted, names[i]) is Some {
        assert(ordinals_of(f, deleted, names).contains(ordinal_of(f, deleted, names[i])->Some_0));
    }
}

/// The mask after a delete: what the mask recorded, and the new ordinals. A
/// delete another handle made in the meantime stays.
pub fn mask_with(recorded: BTreeSet<u32>, ordinals: &BTreeSet<u32>) -> (mask: BTreeSet<u32>)
    ensures
        mask@ == recorded@.union(ordinals@),
{
    let list = in_increasing_order(ordinals);
    let ghost start = recorded@;
    let mut mask = recorded;
    let mut i: usize = 0;
    assert(mask@ =~= start.union(list@.take(0).to_set()));
    while i < list.len()
        invariant
            i <= list@.len(),
            mask@ == start.union(list@.take(i as int).to_set()),
        decreases list@.len() - i,
    {
        mask.insert(list[i]);
        proof {
            let shorter = list@.take(i as int);
            let longer = list@.take(i + 1);
            assert(longer =~= shorter.push(list@[i as int]));
            assert forall|o: u32| #[trigger]
                mask@.contains(o) <==> start.union(longer.to_set()).contains(o) by {
                if longer.contains(o) {
                    let k = longer.index_of(o);
                    if k < i {
                        assert(shorter[k] == o);
                        assert(shorter.contains(o));
                    }
                }
                if shorter.contains(o) {
                    let k = shorter.index_of(o);
                    assert(longer[k] == o);
                }
                if o == list@[i as int] {
                    assert(longer[i as int] == o);
                }
            }
            assert(mask@ =~= start.union(longer.to_set()));
        }
        i += 1;
    }
    proof {
        assert(list@.take(i as int) =~= list@);
        assert(list@.to_set() =~= ordinals@);
    }
    mask
}

impl Atlas {
    /// Checks the names a delete is asked for, and gives their ordinals. Every
    /// name must be live; of several that are not, the error names the one
    /// that sorts first. An empty list gives an empty set, and the caller has
    /// nothing to write.
    pub fn plan_delete(&self, names: &Vec<String>) -> (ordinals: Result<BTreeSet<u32>>)
        ensures
            match ordinals {
                Ok(set) => {
                    &&& all_visible(self.declared(), self.hidden(), texts(names@))
                    &&& set@ == ordinals_of(self.declared(), self.hidden(), texts(names@))
                    &&& set@.len() == texts(names@).to_set().len()
                    &&& forall|o: u32| #[trigger]
                        set@.contains(o) ==> o < self.declared().datasets.len()
                },
                Err(e) => exists|name: Seq<char>|
                    e@ == Error::DatasetNotFound(name) && #[trigger] first_missing(
                        self.declared(),
                        self.hidden(),
                        texts(names@),
                        name,
                    ),
            },
    {
        proof {
            use_type_invariant(self);
        }
        let ghost f = self.footer@;
        let ghost hidden = self.deleted@;
        let ghost all = texts(names@);
        let mut set: BTreeSet<u32> = BTreeSet::new();
        let mut missing: Option<String> = None;
        let mut i: usize = 0;
        assert(set@ =~= ordinals_of(f, hidden, all.take(0)));
        while i < names.len()
            invariant
                i <= names@.len(),
                f == self.footer@,
                hidden == self.deleted@,
                all == texts(names@),
                readable(f, hidden),
                set@ == ordinals_of(f, hidden, all.take(i as int)),
                match missing {
                    Some(m) => first_missing(f, hidden, all.take(i as int), m@),
                    None => all_visible(f, hidden, all.take(i as int)),
                },
            decreases names@.len() - i,
        {
            let ghost shorter = all.take(i as int);
            let ghost longer = all.take(i + 1);
            let name = names[i].as_str();
            proof {
                assert(longer =~= shorter.push(name@));
                assert(longer[i as int] == name@);
                assert forall|k: int| 0 <= k < i implies longer[k] == #[trigger] shorter[k] by {}
                assert forall|x: Seq<char>| shorter.contains(x) implies longer.contains(x) by {
                    assert(longer[shorter.index_of(x)] == x);
                }
                assert(longer.contains(name@));
            }
            match self.ordinal_of(name) {
                Some(o) => {
                    set.insert(o);
                    proof {
                        lemma_more_ordinals(f, hidden, shorter, name@);
                    }
                },
                None => {
                    proof {
                        lemma_more_ordinals(f, hidden, shorter, name@);
                    }
                    let replace = match &missing {
                        Some(m) => comes_before(name, m.as_str()),
                        None => true,
                    };
                    if replace {
                        proof {
                            assert forall|k: int|
                                0 <= k < longer.len() && ordinal_of(
                                    f,
                                    hidden,
                                    #[trigger] longer[k],
                                ) is None implies !text_before(longer[k], name@) by {
                                law_text_order_is_total(name@, name@, name@);
                                if k < i {
                                    assert(ordinal_of(f, hidden, shorter[k]) is None);
                                    match missing {
                                        Some(m) => {
                                            law_text_order_is_total(shorter[k], name@, m@);
                                        },
                                        None => {},
                                    }
                                }
                            }
                        }
                        missing = Some(name.to_owned());
                    }
                },
            }
            i += 1;
        }
        assert(all.take(i as int) =~= all);
        match missing {
            Some(m) => {
                assert(first_missing(self.declared(), self.hidden(), texts(names@), m@));
                Err(Error::DatasetNotFound(m))
            },
            None => {
                proof {
                    law_repeated_names_count_once(f, hidden, all);
                    assert forall|o: u32| #[trigger] set@.contains(o) implies o
                        < f.datasets.len() by {
                        let k = choose|k: int|
                            0 <= k < all.len() && ordinal_of(f, hidden, #[trigger] all[k]) == Some(
                                o,
                            );
                        assert(f.datasets[key_index(f.datasets, all[k])].0 == all[k]);
                    }
                }
                Ok(set)
            },
        }
    }

    /// Takes over a mask that was written.
    pub fn set_deleted(&mut self, mask: BTreeSet<u32>)
        requires
            forall|o: u32| #[trigger] mask@.contains(o) ==> o < old(self).declared().datasets.len(),
        ensures
            final(self).declared() == old(self).declared(),
            final(self).size() == old(self).size(),
            final(self).hidden() == mask@,
    {
        proof {
            use_type_invariant(&*self);
        }
        self.deleted = mask;
    }
}

proof fn lemma_more_ordinals(
    f: FooterModel,
    deleted: Set<u32>,
    names: Seq<Seq<char>>,
    name: Seq<char>,
)
    ensures
        ordinals_of(f, deleted, names.push(name)) == (match ordinal_of(f, deleted, name) {
            Some(o) => ordinals_of(f, deleted, names).insert(o),
            None => ordinals_of(f, deleted, names),
        }),
{
    let longer = names.push(name);
    let a = ordinals_of(f, deleted, names);
    let b = ordinals_of(f, deleted, longer);
    let want = match ordinal_of(f, deleted, name) {
        Some(o) => a.insert(o),
        None => a,
    };
    assert forall|o: u32| #[trigger] b.contains(o) <==> want.contains(o) by {
        if b.contains(o) {
            let k = choose|k: int|
                0 <= k < longer.len() && ordinal_of(f, deleted, #[trigger] longer[k]) == Some(o);
            if k < names.len() {
                assert(ordinal_of(f, deleted, names[k]) == Some(o));
            }
        }
        if a.contains(o) {
            let k = choose|k: int|
                0 <= k < names.len() && ordinal_of(f, deleted, #[trigger] names[k]) == Some(o);
            assert(ordinal_of(f, deleted, longer[k]) == Some(o));
        }
        if ordinal_of(f, deleted, name) == Some(o) {
            assert(longer[names.len() as int] == name);
        }
    }
    assert(b =~= want);
}

/// The segment at a position holds the array of this name.
pub open spec fn segment_holds(f: FooterModel, array: Seq<char>, i: int) -> bool {
    &&& 0 <= i < f.variables.len()
    &&& first_at(f.strings, array, f.variables[i].name as int)
}

/// The segment that holds an array.
pub fn segment_index(footer: &CollectionFooter, array: &str) -> (index: Result<usize>)
    requires
        footer@.strings.len() <= 0x1_0000_0000,
    ensures
        match index {
            Ok(i) => segment_holds(footer@, array@, i as int),
            Err(e) => {
                &&& e@ == Error::ArrayNotFound(array@)
                &&& forall|i: int| !(#[trigger] segment_holds(footer@, array@, i))
            },
        },
{
    match footer.string_id(array) {
        Some(id) => match footer.variable_index(id) {
            Some(index) => Ok(index),
            None => {
                proof {
                    assert forall|i: int| !(#[trigger] segment_holds(footer@, array@, i)) by {
                        if segment_holds(footer@, array@, i) {
                            let other = footer@.variables[i].name as int;
                            assert(footer@.strings[other] == array@);
                            assert(footer@.strings[id as int] == array@);
                            assert(other == id);
                            assert(has_segment(footer@, id));
                        }
                    }
                }
                Err(Error::ArrayNotFound(array.to_owned()))
            },
        },
        None => Err(Error::ArrayNotFound(array.to_owned())),
    }
}

/// What some statistics say.
pub open spec fn stats_models(list: Seq<ArrayStats>) -> Seq<StatsModel> {
    Seq::new(list.len(), |i: int| list[i]@)
}

/// The statistics of the datasets that are not among `hidden`.
pub open spec fn unhidden(list: Seq<StatsModel>, hidden: Seq<Seq<char>>) -> Seq<StatsModel>
    decreases list.len(),
{
    if list.len() == 0 {
        Seq::empty()
    } else if hidden.contains(list.last().name) {
        unhidden(list.drop_last(), hidden)
    } else {
        unhidden(list.drop_last(), hidden).push(list.last())
    }
}

/// One set of statistics out of those of several datasets, under the name of
/// the array. A dataset whose bounds do not compare with those before it stays
/// out.
pub open spec fn merged_all(list: Seq<StatsModel>, array: Seq<char>) -> Option<StatsModel>
    decreases list.len(),
{
    if list.len() == 0 {
        None
    } else {
        match merged_all(list.drop_last(), array) {
            Some(total) => if comparable(total, list.last()) {
                Some(merged(total, list.last()))
            } else {
                Some(total)
            },
            None => Some(StatsModel { name: array, ..list.last() }),
        }
    }
}

fn has_text(list: &Vec<String>, text: &str) -> (found: bool)
    ensures
        found == texts(list@).contains(text@),
{
    let mut i: usize = 0;
    while i < list.len()
        invariant
            i <= list@.len(),
            forall|j: int| 0 <= j < i ==> texts(list@)[j] != text@,
        decreases list@.len() - i,
    {
        if same_text(list[i].as_str(), text) {
            assert(texts(list@)[i as int] == text@);
            return true;
        }
        i += 1;
    }
    false
}

/// The values that are there, each under its key.
pub open spec fn present(keys: Seq<Seq<char>>, values: Seq<Option<Attr>>) -> Seq<
    (Seq<char>, Attr),
>
    decreases values.len(),
{
    if values.len() == 0 {
        Seq::empty()
    } else {
        let front = present(keys, values.drop_last());
        match values.last() {
            Some(value) => front.push((keys[values.len() - 1], value)),
            None => front,
        }
    }
}

/// Puts the values a segment gave for some keys under these keys. A key with
/// no value has no entry.
pub fn gather(keys: &Vec<String>, values: Vec<Option<Attr>>) -> (table: Table<Attr>)
    requires
        keys@.len() == values@.len(),
    ensures
        table@ == table_of(present(texts(keys@), values@)),
{
    let ghost all = values@;
    let mut rest = values;
    let mut forward: Vec<Option<Attr>> = Vec::new();
    while rest.len() > 0
        invariant
            rest@ + forward@.reverse() == all,
        decreases rest@.len(),
    {
        let ghost before = rest@;
        match rest.pop() {
            Some(value) => {
                let ghost behind = forward@;
                forward.push(value);
                assert(rest@ + forward@.reverse() =~= before + behind.reverse());
            },
            None => {},
        }
    }
    assert(forward@.reverse() =~= all);
    let mut table: Table<Attr> = Table::new();
    let mut i: usize = 0;
    assert(all.take(0) =~= Seq::empty());
    while forward.len() > 0
        invariant
            i + forward@.len() == all.len(),
            keys@.len() == all.len(),
            i <= keys.len(),
            forward@.reverse() == all.skip(i as int),
            table@ == table_of(present(texts(keys@), all.take(i as int))),
        decreases forward@.len(),
    {
        let ghost before = forward@;
        match forward.pop() {
            Some(value) => {
                proof {
                    let longer = all.take(i + 1);
                    assert(longer.drop_last() =~= all.take(i as int));
                    assert(before.reverse()[0] == value);
                    assert(all.skip(i as int)[0] == all[i as int]);
                    assert(longer.last() == value);
                    assert forall|k: int| 0 <= k < forward@.len() implies forward@.reverse()[k]
                        == all.skip(i + 1)[k] by {
                        assert(before.reverse()[k + 1] == all.skip(i as int)[k + 1]);
                    }
                    assert(forward@.reverse() =~= all.skip(i + 1));
                    let front = present(texts(keys@), all.take(i as int));
                    if value is Some {
                        let next = front.push((texts(keys@)[i as int], value->Some_0));
                        assert(present(texts(keys@), longer) == next);
                        assert(next.drop_last() =~= front);
                    }
                }
                match value {
                    Some(v) => {
                        table.insert(keys[i].as_str().to_owned(), v);
                    },
                    None => {},
                }
            },
            None => {},
        }
        assert(i < keys.len());
        i += 1;
    }
    assert(all.take(i as int) =~= all);
    table
}

impl Atlas {
    /// The segment that holds an array. `None` for a variable the collection
    /// does not hold: a collection-wide call answers about a name nobody
    /// declared, instead of failing on it.
    pub fn try_segment(&self, array: &str) -> (index: Option<usize>)
        ensures
            match index {
                Some(i) => segment_holds(self.declared(), array@, i as int),
                None => forall|i: int| !(#[trigger] segment_holds(self.declared(), array@, i)),
            },
    {
        proof {
            use_type_invariant(self);
        }
        match segment_index(&self.footer, array) {
            Ok(i) => Some(i),
            Err(_) => None,
        }
    }

    /// What each live dataset recorded about one array, in write order, out of
    /// the statistics its segment holds. Every entry names its dataset.
    pub fn array_stats_by_dataset(&self, recorded: &Vec<ArrayStats>) -> (list: Vec<ArrayStats>)
        ensures
            stats_models(list@) == unhidden(
                stats_models(recorded@),
                hidden_names(
                    self.declared(),
                    self.hidden(),
                    self.declared().datasets.len() as int,
                ),
            ),
    {
        let hidden = self.deleted_names();
        let ghost all = stats_models(recorded@);
        let mut list: Vec<ArrayStats> = Vec::new();
        let mut i: usize = 0;
        assert(stats_models(list@) =~= unhidden(all.take(0), texts(hidden@)));
        while i < recorded.len()
            invariant
                i <= recorded@.len(),
                all == stats_models(recorded@),
                stats_models(list@) == unhidden(all.take(i as int), texts(hidden@)),
            decreases recorded@.len() - i,
        {
            let ghost before = stats_models(list@);
            proof {
                assert(all.take(i + 1).drop_last() =~= all.take(i as int));
                assert(all.take(i + 1).last() == recorded@[i as int]@);
            }
            if !has_text(&hidden, recorded[i].name.as_str()) {
                list.push(recorded[i].clone());
                assert(stats_models(list@) =~= before.push(recorded@[i as int]@));
            }
            i += 1;
        }
        assert(all.take(i as int) =~= all);
        list
    }

    /// One set of statistics for an array, over every live dataset, out of the
    /// statistics its segment holds. `None` when no live dataset recorded any.
    /// A dataset that declares the array with an unrelated type stays out,
    /// because the two do not compare.
    pub fn array_stats(&self, array: &str, recorded: &Vec<ArrayStats>) -> (total: Option<
        ArrayStats,
    >)
        ensures
            ({
                let hidden = hidden_names(
                    self.declared(),
                    self.hidden(),
                    self.declared().datasets.len() as int,
                );
                let want = merged_all(unhidden(stats_models(recorded@), hidden), array@);
                match total {
                    Some(t) => want == Some(t@),
                    None => want is None,
                }
            }),
    {
        let list = self.array_stats_by_dataset(recorded);
        let ghost all = stats_models(list@);
        let mut total: Option<ArrayStats> = None;
        let mut i: usize = 0;
        assert(all.take(0) =~= Seq::empty());
        while i < list.len()
            invariant
                i <= list@.len(),
                all == stats_models(list@),
                match total {
                    Some(t) => merged_all(all.take(i as int), array@) == Some(t@),
                    None => merged_all(all.take(i as int), array@) is None,
                },
            decreases list@.len() - i,
        {
            proof {
                assert(all.take(i + 1).drop_last() =~= all.take(i as int));
                assert(all.take(i + 1).last() == list@[i as int]@);
            }
            total = match total {
                Some(mut t) => {
                    if t.compares_with(&list[i]) {
                        t.merge(&list[i]);
                    }
                    Some(t)
                },
                None => {
                    let first = list[i].clone();
                    Some(
                        ArrayStats {
                            name: array.to_owned(),
                            min: first.min,
                            max: first.max,
                            null_count: first.null_count,
                            row_count: first.row_count,
                        },
                    )
                },
            };
            i += 1;
        }
        assert(all.take(i as int) =~= all);
        total
    }

    /// One attribute, over every live dataset that carries it, in write order.
    /// `values` holds what the segment gave for each live dataset.
    pub fn attributes_by_dataset(&self, values: Vec<Option<Attr>>) -> (table: Table<Attr>)
        requires
            values@.len() == visible_names(
                self.declared(),
                self.hidden(),
                self.declared().datasets.len() as int,
            ).len(),
        ensures
            table@ == table_of(
                present(
                    visible_names(
                        self.declared(),
                        self.hidden(),
                        self.declared().datasets.len() as int,
                    ),
                    values@,
                ),
            ),
    {
        let names = self.list_datasets();
        assert(texts(names@).len() == names@.len());
        gather(&names, values)
    }
}

/// An ordinal is the place of a dataset in write order, whether or not others
/// are hidden. A hidden dataset has none, and neither has a name that nobody
/// wrote.
pub proof fn law_ordinals_are_places_in_write_order(
    f: FooterModel,
    deleted: Set<u32>,
    i: int,
    name: Seq<char>,
)
    requires
        readable(f, deleted),
    ensures
        0 <= i < f.datasets.len() ==> ordinal_of(f, deleted, f.datasets[i].0) == (
        if deleted.contains(i as u32) {
            None
        } else {
            Some(i as u32)
        }),
        ordinal_of(f, deleted, name) matches Some(o) ==> o < f.datasets.len()
            && f.datasets[o as int].0 == name && !deleted.contains(o),
        (forall|k: int| 0 <= k < f.datasets.len() ==> (#[trigger] f.datasets[k]).0 != name)
            ==> ordinal_of(f, deleted, name) is None,
{
    if 0 <= i < f.datasets.len() {
        lemma_key_index(f.datasets, i);
    }
    if has_key(f.datasets, name) {
        let k = key_index(f.datasets, name);
        assert(f.datasets[k].0 == name);
    }
}

proof fn lemma_listed_below(f: FooterModel, deleted: Set<u32>, n: int)
    requires
        readable(f, deleted),
        0 <= n <= f.datasets.len(),
    ensures
        forall|a: int|
            0 <= a < visible_names(f, deleted, n).len() ==> (ordinal_of(
                f,
                deleted,
                #[trigger] visible_names(f, deleted, n)[a],
            ) matches Some(o) && o < n),
        forall|a: int, b: int|
            0 <= a < b < visible_names(f, deleted, n).len() ==> ordinal_of(
                f,
                deleted,
                #[trigger] visible_names(f, deleted, n)[a],
            ).unwrap() < ordinal_of(
                f,
                deleted,
                #[trigger] visible_names(f, deleted, n)[b],
            ).unwrap(),
    decreases n,
{
    if n > 0 {
        lemma_listed_below(f, deleted, n - 1);
        lemma_key_index(f.datasets, n - 1);
    }
}

/// Visible datasets are listed in write order, each once.
pub proof fn law_datasets_are_listed_in_write_order(
    f: FooterModel,
    deleted: Set<u32>,
    a: int,
    b: int,
)
    requires
        readable(f, deleted),
        0 <= a < b < visible_names(f, deleted, f.datasets.len() as int).len(),
    ensures
        ({
            let names = visible_names(f, deleted, f.datasets.len() as int);
            exists|i: int, j: int|
                0 <= i < j < f.datasets.len() && (#[trigger] f.datasets[i]).0 == names[a] && (
                #[trigger] f.datasets[j]).0 == names[b] && !deleted.contains(i as u32)
                    && !deleted.contains(j as u32)
        }),
{
    let names = visible_names(f, deleted, f.datasets.len() as int);
    lemma_listed_below(f, deleted, f.datasets.len() as int);
    law_ordinals_are_places_in_write_order(f, deleted, 0, names[a]);
    law_ordinals_are_places_in_write_order(f, deleted, 0, names[b]);
    let i = ordinal_of(f, deleted, names[a]).unwrap();
    let j = ordinal_of(f, deleted, names[b]).unwrap();
    assert(i < j);
    assert(f.datasets[i as int].0 == names[a] && f.datasets[j as int].0 == names[b]);
}

/// The deleted names are those of the datasets that the mask hides.
pub proof fn law_deleted_names_are_the_hidden_ones(
    f: FooterModel,
    deleted: Set<u32>,
    n: int,
    name: Seq<char>,
)
    requires
        0 <= n <= f.datasets.len(),
    ensures
        hidden_names(f, deleted, n).contains(name) <==> exists|i: int|
            0 <= i < n && deleted.contains(i as u32) && (#[trigger] f.datasets[i]).0 == name,
    decreases n,
{
    if n > 0 {
        law_deleted_names_are_the_hidden_ones(f, deleted, n - 1, name);
        let front = hidden_names(f, deleted, n - 1);
        let all = hidden_names(f, deleted, n);
        if deleted.contains((n - 1) as u32) {
            assert(all =~= front.push(f.datasets[n - 1].0));
            if front.contains(name) {
                let k = choose|k: int| 0 <= k < front.len() && front[k] == name;
                assert(all[k] == name);
            }
            if f.datasets[n - 1].0 == name {
                assert(all[all.len() - 1] == name);
            }
            if all.contains(name) && f.datasets[n - 1].0 != name {
                let k = choose|k: int| 0 <= k < all.len() && all[k] == name;
                assert(front[k] == name);
            }
        }
        if exists|i: int|
            0 <= i < n && deleted.contains(i as u32) && (#[trigger] f.datasets[i]).0 == name {
            let i = choose|i: int|
                0 <= i < n && deleted.contains(i as u32) && (#[trigger] f.datasets[i]).0 == name;
            if i < n - 1 {
                assert(0 <= i < n - 1 && deleted.contains(i as u32) && f.datasets[i].0 == name);
            }
        }
    }
}

/// The statistics handed out are those whose dataset is not hidden, in the
/// order in which they were recorded.
pub proof fn law_statistics_of_hidden_datasets_are_left_out(
    list: Seq<StatsModel>,
    hidden: Seq<Seq<char>>,
)
    ensures
        unhidden(list, hidden) == list.filter(|s: StatsModel| !hidden.contains(s.name)),
    decreases list.len(),
{
    reveal(Seq::filter);
    if list.len() > 0 {
        law_statistics_of_hidden_datasets_are_left_out(list.drop_last(), hidden);
    }
}

/// The elements of several datasets together.
pub open spec fn row_total(list: Seq<StatsModel>) -> nat
    decreases list.len(),
{
    if list.len() == 0 {
        0
    } else {
        row_total(list.drop_last()) + list.last().row_count as nat
    }
}

/// The elements of several datasets that equal the fill value.
pub open spec fn null_total(list: Seq<StatsModel>) -> nat
    decreases list.len(),
{
    if list.len() == 0 {
        0
    } else {
        null_total(list.drop_last()) + list.last().null_count as nat
    }
}

/// The statistics of one array over several datasets cover each of them, where
/// their bounds are of one variant: no bound of a dataset lies outside, the
/// bounds of the whole are bounds of datasets, and the counts add up, up to the
/// largest number of 64 bits. They go by the name of the array.
pub proof fn law_statistics_cover_every_dataset(list: Seq<StatsModel>, array: Seq<char>)
    requires
        forall|i: int, j: int|
            0 <= i < list.len() && 0 <= j < list.len() ==> comparable(
                #[trigger] list[i],
                #[trigger] list[j],
            ),
    ensures
        merged_all(list, array) is Some <==> list.len() > 0,
        merged_all(list, array) matches Some(total) ==> {
            &&& total.name == array
            &&& total.row_count == row_total(list) || (total.row_count == u64::MAX && row_total(list)
                > u64::MAX)
            &&& total.null_count == null_total(list) || (total.null_count == u64::MAX && null_total(
                list,
            ) > u64::MAX)
            &&& forall|i: int|
                0 <= i < list.len() && (#[trigger] list[i]).min is Some ==> total.min is Some
                    && below_or_equal(total.min.unwrap(), list[i].min.unwrap())
            &&& forall|i: int|
                0 <= i < list.len() && (#[trigger] list[i]).max is Some ==> total.max is Some
                    && below_or_equal(list[i].max.unwrap(), total.max.unwrap())
            &&& total.min is Some ==> exists|i: int|
                0 <= i < list.len() && (#[trigger] list[i]).min == total.min
            &&& total.max is Some ==> exists|i: int|
                0 <= i < list.len() && (#[trigger] list[i]).max == total.max
        },
    decreases list.len(),
{
    if list.len() > 0 {
        let front = list.drop_last();
        let last = list.last();
        let at = list.len() - 1;
        assert forall|i: int, j: int|
            0 <= i < front.len() && 0 <= j < front.len() implies comparable(
            #[trigger] front[i],
            #[trigger] front[j],
        ) by {
            assert(comparable(list[i], list[j]));
        }
        law_statistics_cover_every_dataset(front, array);
        if front.len() == 0 {
            assert(row_total(front) == 0 && null_total(front) == 0);
            assert(comparable(list[at], list[at]));
            assert(list[at].min == last.min && list[at].max == last.max);
            lemma_bounds_meet_themselves(last);
        } else {
            let total = merged_all(front, array).unwrap();
            assert(comparable(total, last)) by {
                if total.min is Some {
                    let i = choose|i: int|
                        0 <= i < front.len() && (#[trigger] front[i]).min == total.min;
                    assert(comparable(list[i], list[at]));
                }
                if total.max is Some {
                    let i = choose|i: int|
                        0 <= i < front.len() && (#[trigger] front[i]).max == total.max;
                    assert(comparable(list[i], list[at]));
                }
            }
            law_merged_statistics_cover_both(total, last);
            let whole = merged(total, last);
            if whole.min is Some {
                if whole.min == total.min {
                    let i = choose|i: int|
                        0 <= i < front.len() && (#[trigger] front[i]).min == total.min;
                    assert(list[i].min == whole.min);
                } else {
                    assert(list[at].min == whole.min);
                }
            }
            if whole.max is Some {
                if whole.max == total.max {
                    let i = choose|i: int|
                        0 <= i < front.len() && (#[trigger] front[i]).max == total.max;
                    assert(list[i].max == whole.max);
                } else {
                    assert(list[at].max == whole.max);
                }
            }
            assert forall|i: int| 0 <= i < list.len() && (#[trigger] list[i]).min is Some implies
                whole.min is Some && below_or_equal(whole.min.unwrap(), list[i].min.unwrap()) by {
                if i < at {
                    assert(front[i].min is Some);
                    lemma_below_or_equal(
                        whole.min.unwrap(),
                        total.min.unwrap(),
                        list[i].min.unwrap(),
                    );
                }
            }
            assert forall|i: int| 0 <= i < list.len() && (#[trigger] list[i]).max is Some implies
                whole.max is Some && below_or_equal(list[i].max.unwrap(), whole.max.unwrap()) by {
                if i < at {
                    assert(front[i].max is Some);
                    lemma_below_or_equal(
                        list[i].max.unwrap(),
                        total.max.unwrap(),
                        whole.max.unwrap(),
                    );
                }
            }
        }
    }
}

proof fn lemma_bounds_meet_themselves(s: StatsModel)
    ensures
        s.min is Some ==> below_or_equal(s.min.unwrap(), s.min.unwrap()),
        s.max is Some ==> below_or_equal(s.max.unwrap(), s.max.unwrap()),
{
}

proof fn lemma_below_or_equal(a: StatModel, b: StatModel, c: StatModel)
    requires
        below_or_equal(a, b),
        below_or_equal(b, c),
    ensures
        below_or_equal(a, c),
{
    law_values_of_one_variant_are_totally_ordered(a, b, c);
}

/// One dataset more in the statistics of an array: the first gives its own,
/// one whose bounds compare is merged in, and one whose bounds do not changes
/// nothing.
pub proof fn law_one_more_dataset_in_the_statistics(
    list: Seq<StatsModel>,
    s: StatsModel,
    array: Seq<char>,
)
    ensures
        match merged_all(list, array) {
            None => merged_all(list.push(s), array) matches Some(total) && total.name == array
                && total.min == s.min && total.max == s.max && total.row_count == s.row_count
                && total.null_count == s.null_count,
            Some(before) => if comparable(before, s) {
                merged_all(list.push(s), array) == Some(merged(before, s))
            } else {
                merged_all(list.push(s), array) == Some(before)
            },
        },
{
    assert(list.push(s).drop_last() =~= list);
}

/// A gathered value stands under its own key, and a key without a value has no
/// entry.
pub proof fn law_gathered_values_stand_under_their_keys(
    keys: Seq<Seq<char>>,
    values: Seq<Option<Attr>>,
    key: Seq<char>,
)
    requires
        keys.no_duplicates(),
        values.len() <= keys.len(),
    ensures
        forall|i: int|
            0 <= i < values.len() && #[trigger] keys[i] == key ==> value_of(
                table_of(present(keys, values)),
                key,
            ) == values[i],
        !keys.contains(key) ==> value_of(table_of(present(keys, values)), key) is None,
{
    lemma_present(keys, values, key);
    law_distinct_pairs_fill_a_table(present(keys, values));
}

proof fn lemma_present(keys: Seq<Seq<char>>, values: Seq<Option<Attr>>, key: Seq<char>)
    requires
        keys.no_duplicates(),
        values.len() <= keys.len(),
    ensures
        keys_distinct(present(keys, values)),
        forall|k: int|
            0 <= k < present(keys, values).len() ==> exists|i: int|
                0 <= i < values.len() && #[trigger] keys[i] == (#[trigger] present(
                    keys,
                    values,
                )[k]).0,
        forall|i: int|
            0 <= i < values.len() && #[trigger] keys[i] == key ==> value_of(
                present(keys, values),
                key,
            ) == values[i],
        !keys.contains(key) ==> value_of(present(keys, values), key) is None,
    decreases values.len(),
{
    let all = present(keys, values);
    if values.len() == 0 {
        assert(!has_key(all, key));
    } else {
        let n = values.len() - 1;
        let front = present(keys, values.drop_last());
        lemma_present(keys, values.drop_last(), key);
        assert forall|k: int| 0 <= k < front.len() implies exists|i: int|
            0 <= i < n && #[trigger] keys[i] == (#[trigger] front[k]).0 by {}
        if has_key(front, keys[n]) {
            let k = key_index(front, keys[n]);
            assert(front[k].0 == keys[n]);
            let i = choose|i: int| 0 <= i < n && #[trigger] keys[i] == front[k].0;
            assert(keys[i] != keys[n]);
        }
        if values.last() is Some {
            let value = values.last().unwrap();
            assert(all == front.push((keys[n], value)));
            assert(all =~= crate::table::with_entry(front, keys[n], value));
            crate::table::law_get_after_set(front, keys[n], value, key);
            assert forall|k: int| 0 <= k < all.len() implies exists|i: int|
                0 <= i < values.len() && #[trigger] keys[i] == (#[trigger] all[k]).0 by {
                if k < front.len() {
                    let i = choose|i: int| 0 <= i < n && #[trigger] keys[i] == front[k].0;
                    assert(keys[i] == all[k].0);
                } else {
                    assert(keys[n] == all[k].0);
                }
            }
        }
        assert forall|i: int| 0 <= i < values.len() && #[trigger] keys[i] == key implies value_of(
            all,
            key,
        ) == values[i] by {
            if i < n {
                assert(values.drop_last()[i] == values[i]);
                assert(keys[i] != keys[n]);
            }
        }
    }
}

/// A segment holds the array whose name the footer gives its variable, and where
/// no name stands twice, every variable of that name holds it.
pub proof fn law_a_segment_holds_the_array_of_its_name(
    f: FooterModel,
    array: Seq<char>,
    i: int,
)
    requires
        f.strings.no_duplicates(),
        0 <= i < f.variables.len(),
        f.variables[i].name < f.strings.len(),
    ensures
        segment_holds(f, array, i) <==> f.strings[f.variables[i].name as int] == array,
{
}

/// A collection opens exactly where its footer is consistent and its mask, if it
/// has one, can be read. What is then deleted is what the mask says, and without
/// a mask nothing is.
pub proof fn law_what_a_collection_opens_with(f: FooterModel, mask: Seq<u8>)
    ensures
        opened(f, None) is Ok <==> consistent(f),
        opened(f, Some(mask)) is Ok <==> consistent(f) && mask_of(mask, f.datasets.len()) is Ok,
        consistent(f) ==> opened(f, None) == Ok::<Set<u32>, Error<Seq<char>>>(Set::empty()),
        consistent(f) ==> opened(f, Some(mask)) == mask_of(mask, f.datasets.len()),
        !consistent(f) ==> opened(f, Some(mask)) == opened(f, None),
{
    law_accepted_footers_are_the_consistent_ones(f);
}

/// A deletion goes through exactly where every name is that of a visible dataset.
/// Otherwise the name that is reported is one of those that were given, no
/// visible dataset has it, and every other missing name sorts behind it.
pub proof fn law_the_reported_name_is_missing(
    f: FooterModel,
    deleted: Set<u32>,
    names: Seq<Seq<char>>,
    name: Seq<char>,
    i: int,
)
    requires
        0 <= i < names.len(),
    ensures
        all_visible(f, deleted, names) ==> ordinal_of(f, deleted, names[i]) is Some,
        ordinal_of(f, deleted, names[i]) is None ==> !all_visible(f, deleted, names),
        first_missing(f, deleted, names, name) ==> {
            &&& names.contains(name)
            &&& ordinal_of(f, deleted, name) is None
            &&& !all_visible(f, deleted, names)
            &&& ordinal_of(f, deleted, names[i]) is None ==> names[i] == name || text_before(
                name,
                names[i],
            )
        },
        (forall|j: int| 0 <= j < names.len() ==> ordinal_of(f, deleted, #[trigger] names[j]) is Some)
            ==> all_visible(f, deleted, names),
{
    law_text_order_is_total(names[i], name, name);
}

} // verus!
