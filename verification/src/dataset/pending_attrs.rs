//! [`PendingAttrs`]: the buffer of attribute writes.

use crate::digest::{
    feed_number, feed_text, feed_texts, feed_words, number_chunks, text_chunks, texts_chunks,
    words_chunks, Word,
};
use crate::schema::attr::{blobs, Attr, AttrModel};
use crate::table::{
    has_key, key_index, keys_distinct, law_get_after_set, lemma_key_index, value_of, with_entry, Table,
};
use crate::text::{same_text, texts};
use crate::timestamp::{StoreAttr, StoreAttrModel};
use std::collections::hash_map::DefaultHasher;
use std::hash::Hasher;
use vstd::prelude::*;
use vstd::std_specs::hash::DefaultHasherAdditionalSpecFns;

verus! {

/// What is written for some binary values.
pub open spec fn blobs_chunks(list: Seq<Seq<u8>>) -> Seq<Seq<u8>>
    decreases list.len(),
{
    if list.len() == 0 {
        Seq::empty()
    } else {
        blobs_chunks(list.drop_last()) + number_chunks(list.last().len()) + words_chunks(
            list.last(),
        )
    }
}

/// What is written for a plain value: its kind, and what it holds. A float goes
/// by its bits.
pub open spec fn plain_chunks(value: AttrModel) -> Seq<Seq<u8>> {
    match value {
        AttrModel::Bool(v) => number_chunks(0) + number_chunks(v.word_of() as nat),
        AttrModel::Int8(v) => number_chunks(1) + number_chunks(v.word_of() as nat),
        AttrModel::Int16(v) => number_chunks(2) + number_chunks(v.word_of() as nat),
        AttrModel::Int32(v) => number_chunks(3) + number_chunks(v.word_of() as nat),
        AttrModel::Int64(v) => number_chunks(4) + number_chunks(v.word_of() as nat),
        AttrModel::UInt8(v) => number_chunks(5) + number_chunks(v.word_of() as nat),
        AttrModel::UInt16(v) => number_chunks(6) + number_chunks(v.word_of() as nat),
        AttrModel::UInt32(v) => number_chunks(7) + number_chunks(v.word_of() as nat),
        AttrModel::UInt64(v) => number_chunks(8) + number_chunks(v.word_of() as nat),
        AttrModel::Float32(v) => number_chunks(9) + number_chunks(v.word_of() as nat),
        AttrModel::Float64(v) => number_chunks(10) + number_chunks(v.word_of() as nat),
        AttrModel::String(v) => number_chunks(11) + text_chunks(v),
        AttrModel::Binary(v) => number_chunks(12) + number_chunks(v.len()) + words_chunks(v),
        AttrModel::BoolList(v) => number_chunks(13) + number_chunks(v.len()) + words_chunks(v),
        AttrModel::Int8List(v) => number_chunks(14) + number_chunks(v.len()) + words_chunks(v),
        AttrModel::Int16List(v) => number_chunks(15) + number_chunks(v.len()) + words_chunks(v),
        AttrModel::Int32List(v) => number_chunks(16) + number_chunks(v.len()) + words_chunks(v),
        AttrModel::Int64List(v) => number_chunks(17) + number_chunks(v.len()) + words_chunks(v),
        AttrModel::UInt8List(v) => number_chunks(18) + number_chunks(v.len()) + words_chunks(v),
        AttrModel::UInt16List(v) => number_chunks(19) + number_chunks(v.len()) + words_chunks(v),
        AttrModel::UInt32List(v) => number_chunks(20) + number_chunks(v.len()) + words_chunks(v),
        AttrModel::UInt64List(v) => number_chunks(21) + number_chunks(v.len()) + words_chunks(v),
        AttrModel::Float32List(v) => number_chunks(22) + number_chunks(v.len()) + words_chunks(v),
        AttrModel::Float64List(v) => number_chunks(23) + number_chunks(v.len()) + words_chunks(v),
        AttrModel::StringList(v) => number_chunks(24) + number_chunks(v.len()) + texts_chunks(v),
        AttrModel::BinaryList(v) => number_chunks(25) + number_chunks(v.len()) + blobs_chunks(v),
    }
}

/// What is written for a value.
pub open spec fn attr_chunks(value: StoreAttrModel) -> Seq<Seq<u8>> {
    match value {
        StoreAttrModel::TimestampNanoseconds(n) => number_chunks(26) + number_chunks(
            n.word_of() as nat,
        ),
        StoreAttrModel::Plain(v) => plain_chunks(v),
    }
}

/// The content hash of a value.
pub open spec fn attr_hash(value: StoreAttrModel) -> u64 {
    DefaultHasher::spec_finish(attr_chunks(value))
}

fn feed_blobs(state: &mut DefaultHasher, list: &Vec<Vec<u8>>)
    ensures
        final(state)@ == old(state)@ + number_chunks(list@.len()) + blobs_chunks(blobs(list@)),
{
    feed_number(state, list.len() as u64);
    let ghost start = state@;
    let ghost all = blobs(list@);
    let mut i: usize = 0;
    assert(state@ =~= start + blobs_chunks(all.take(0)));
    while i < list.len()
        invariant
            i <= list@.len(),
            all == blobs(list@),
            state@ == start + blobs_chunks(all.take(i as int)),
        decreases list@.len() - i,
    {
        feed_words(state, &list[i]);
        assert(all.take(i + 1).drop_last() =~= all.take(i as int));
        assert(all.take(i + 1).last() == list@[i as int]@);
        assert(state@ =~= start + blobs_chunks(all.take(i + 1)));
        i += 1;
    }
    assert(all.take(i as int) =~= all);
}

fn feed_plain(state: &mut DefaultHasher, value: &Attr)
    ensures
        final(state)@ == old(state)@ + plain_chunks(value@),
{
    match value {
        Attr::Bool(v) => {
            feed_number(state, 0);
            feed_number(state, v.word());
        },
        Attr::Int8(v) => {
            feed_number(state, 1);
            feed_number(state, v.word());
        },
        Attr::Int16(v) => {
            feed_number(state, 2);
            feed_number(state, v.word());
        },
        Attr::Int32(v) => {
            feed_number(state, 3);
            feed_number(state, v.word());
        },
        Attr::Int64(v) => {
            feed_number(state, 4);
            feed_number(state, v.word());
        },
        Attr::UInt8(v) => {
            feed_number(state, 5);
            feed_number(state, v.word());
        },
        Attr::UInt16(v) => {
            feed_number(state, 6);
            feed_number(state, v.word());
        },
        Attr::UInt32(v) => {
            feed_number(state, 7);
            feed_number(state, v.word());
        },
        Attr::UInt64(v) => {
            feed_number(state, 8);
            feed_number(state, v.word());
        },
        Attr::Float32(v) => {
            feed_number(state, 9);
            feed_number(state, v.word());
        },
        Attr::Float64(v) => {
            feed_number(state, 10);
            feed_number(state, v.word());
        },
        Attr::String(v) => {
            feed_number(state, 11);
            feed_text(state, v.as_str());
        },
        Attr::Binary(v) => {
            feed_number(state, 12);
            feed_words(state, v);
        },
        Attr::BoolList(v) => {
            feed_number(state, 13);
            feed_words(state, v);
        },
        Attr::Int8List(v) => {
            feed_number(state, 14);
            feed_words(state, v);
        },
        Attr::Int16List(v) => {
            feed_number(state, 15);
            feed_words(state, v);
        },
        Attr::Int32List(v) => {
            feed_number(state, 16);
            feed_words(state, v);
        },
        Attr::Int64List(v) => {
            feed_number(state, 17);
            feed_words(state, v);
        },
        Attr::UInt8List(v) => {
            feed_number(state, 18);
            feed_words(state, v);
        },
        Attr::UInt16List(v) => {
            feed_number(state, 19);
            feed_words(state, v);
        },
        Attr::UInt32List(v) => {
            feed_number(state, 20);
            feed_words(state, v);
        },
        Attr::UInt64List(v) => {
            feed_number(state, 21);
            feed_words(state, v);
        },
        Attr::Float32List(v) => {
            feed_number(state, 22);
            feed_words(state, v);
        },
        Attr::Float64List(v) => {
            feed_number(state, 23);
            feed_words(state, v);
        },
        Attr::StringList(v) => {
            feed_number(state, 24);
            feed_texts(state, v);
            assert(texts(v@).len() == v@.len());
        },
        Attr::BinaryList(v) => {
            feed_number(state, 25);
            feed_blobs(state, v);
            assert(blobs(v@).len() == v@.len());
        },
    }
    assert(state@ =~= old(state)@ + plain_chunks(value@));
}

/// Content hash of a value. Values that hold the same have the same hash.
pub fn hash_attr(value: &StoreAttr) -> (hash: u64)
    ensures
        hash == attr_hash(value@),
{
    let mut state = DefaultHasher::new();
    match value {
        StoreAttr::TimestampNanoseconds(n) => {
            feed_number(&mut state, 26);
            feed_number(&mut state, n.word());
        },
        StoreAttr::Plain(v) => {
            feed_plain(&mut state, v);
        },
    }
    assert(state@ =~= attr_chunks(value@));
    state.finish()
}

/// The attributes one dataset has waiting for one file.
#[verifier::ext_equal]
pub struct GroupModel {
    /// The file they go to.
    pub file: Seq<char>,
    /// The dataset they belong to.
    pub dataset: Seq<char>,
    /// Attribute key and value, in the order of the first write of each key.
    pub attrs: Seq<(Seq<char>, StoreAttrModel)>,
}

/// A group of this file and dataset stands at a position.
pub open spec fn is_group(
    m: Seq<GroupModel>,
    file: Seq<char>,
    dataset: Seq<char>,
    i: int,
) -> bool {
    0 <= i < m.len() && m[i].file == file && m[i].dataset == dataset
}

/// There is a group of this file and dataset.
pub open spec fn has_group(m: Seq<GroupModel>, file: Seq<char>, dataset: Seq<char>) -> bool {
    exists|i: int| is_group(m, file, dataset, i)
}

/// Where the group of this file and dataset stands.
pub open spec fn group_index(m: Seq<GroupModel>, file: Seq<char>, dataset: Seq<char>) -> int {
    choose|i: int| is_group(m, file, dataset, i)
}

/// What is waiting for a key.
pub open spec fn pending_value(
    m: Seq<GroupModel>,
    file: Seq<char>,
    dataset: Seq<char>,
    key: Seq<char>,
) -> Option<StoreAttrModel> {
    if has_group(m, file, dataset) {
        value_of(m[group_index(m, file, dataset)].attrs, key)
    } else {
        None
    }
}

/// The buffer after one more write.
pub open spec fn with_attr(
    m: Seq<GroupModel>,
    file: Seq<char>,
    dataset: Seq<char>,
    key: Seq<char>,
    value: StoreAttrModel,
) -> Seq<GroupModel> {
    if has_group(m, file, dataset) {
        let i = group_index(m, file, dataset);
        m.update(i, GroupModel { attrs: with_entry(m[i].attrs, key, value), ..m[i] })
    } else {
        m.push(GroupModel { file, dataset, attrs: seq![(key, value)] })
    }
}

/// A group is of a dataset, and of a file where one is named.
pub open spec fn belongs(g: GroupModel, file: Option<Seq<char>>, dataset: Seq<char>) -> bool {
    g.dataset == dataset && (file matches Some(f) ==> g.file == f)
}

/// The groups that stay when those of a dataset are dropped, for one file or
/// for all.
pub open spec fn kept_groups(
    m: Seq<GroupModel>,
    file: Option<Seq<char>>,
    dataset: Seq<char>,
) -> Seq<GroupModel>
    decreases m.len(),
{
    if m.len() == 0 {
        Seq::empty()
    } else if belongs(m.last(), file, dataset) {
        kept_groups(m.drop_last(), file, dataset)
    } else {
        kept_groups(m.drop_last(), file, dataset).push(m.last())
    }
}

/// No file and dataset have two groups, no group is empty, and no key occurs
/// twice in one.
pub open spec fn tidy(m: Seq<GroupModel>) -> bool {
    &&& forall|i: int, j: int|
        0 <= i < j < m.len() ==> !((#[trigger] m[i]).file == (#[trigger] m[j]).file && m[i].dataset
            == m[j].dataset)
    &&& forall|i: int|
        0 <= i < m.len() ==> (#[trigger] m[i]).attrs.len() > 0 && keys_distinct(m[i].attrs)
}

/// Some group uses a text as its file, its dataset or a key.
pub open spec fn uses_text(m: Seq<GroupModel>, text: Seq<char>) -> bool {
    exists|i: int|
        0 <= i < m.len() && ((#[trigger] m[i]).file == text || m[i].dataset == text || has_key(
            m[i].attrs,
            text,
        ))
}

/// A group has a value under some key.
pub open spec fn group_has(g: GroupModel, value: StoreAttrModel) -> bool {
    exists|k: int| 0 <= k < g.attrs.len() && (#[trigger] g.attrs[k]).1 == value
}

/// Some group has a value under some key.
pub open spec fn uses_value(m: Seq<GroupModel>, value: StoreAttrModel) -> bool {
    exists|i: int| 0 <= i < m.len() && group_has(#[trigger] m[i], value)
}

/// A buffered write reads back, and writing one key leaves every other alone.
pub proof fn law_get_reads_back_the_write(
    m: Seq<GroupModel>,
    file: Seq<char>,
    dataset: Seq<char>,
    key: Seq<char>,
    value: StoreAttrModel,
    other_file: Seq<char>,
    other_dataset: Seq<char>,
    other_key: Seq<char>,
)
    requires
        tidy(m),
    ensures
        tidy(with_attr(m, file, dataset, key, value)),
        pending_value(with_attr(m, file, dataset, key, value), file, dataset, key) == Some(value),
        (other_file, other_dataset, other_key) != (file, dataset, key) ==> pending_value(
            with_attr(m, file, dataset, key, value),
            other_file,
            other_dataset,
            other_key,
        ) == pending_value(m, other_file, other_dataset, other_key),
{
    let after = with_attr(m, file, dataset, key, value);
    let at = if has_group(m, file, dataset) {
        group_index(m, file, dataset)
    } else {
        m.len() as int
    };
    if has_group(m, file, dataset) {
        assert(is_group(m, file, dataset, at));
        law_get_after_set(m[at].attrs, key, value, key);
        law_get_after_set(m[at].attrs, key, value, other_key);
    } else {
        assert forall|i: int| 0 <= i < m.len() implies !((#[trigger] m[i]).file == file
            && m[i].dataset == dataset) by {
            if m[i].file == file && m[i].dataset == dataset {
                assert(is_group(m, file, dataset, i));
            }
        }
        assert(after[at].attrs =~= seq![(key, value)]);
        lemma_key_index(after[at].attrs, 0);
        if other_key != key && has_key(after[at].attrs, other_key) {
            let k = key_index(after[at].attrs, other_key);
            assert(after[at].attrs[k].0 == other_key);
        }
    }
    assert forall|i: int, j: int| 0 <= i < j < after.len() implies !((#[trigger] after[i]).file
        == (#[trigger] after[j]).file && after[i].dataset == after[j].dataset) by {
        if j < m.len() {
            assert(!(m[i].file == m[j].file && m[i].dataset == m[j].dataset));
        } else {
            assert(after[i] == m[i]);
        }
    }
    assert forall|i: int| 0 <= i < after.len() implies (#[trigger] after[i]).attrs.len() > 0
        && keys_distinct(after[i].attrs) by {
        if i != at {
            assert(after[i] == m[i]);
        }
    }
    lemma_group_index(after, at);
    if has_group(m, other_file, other_dataset) {
        let i = group_index(m, other_file, other_dataset);
        assert(is_group(m, other_file, other_dataset, i));
        lemma_group_index(m, i);
        assert(is_group(after, other_file, other_dataset, i));
        lemma_group_index(after, i);
    } else if has_group(after, other_file, other_dataset) {
        let i = group_index(after, other_file, other_dataset);
        assert(is_group(after, other_file, other_dataset, i));
        if i < m.len() {
            assert(is_group(m, other_file, other_dataset, i));
        }
    }
}

/// A group has one place only.
pub proof fn lemma_group_index(m: Seq<GroupModel>, i: int)
    requires
        tidy(m),
        0 <= i < m.len(),
    ensures
        has_group(m, m[i].file, m[i].dataset),
        group_index(m, m[i].file, m[i].dataset) == i,
{
    assert(is_group(m, m[i].file, m[i].dataset, i));
    let j = group_index(m, m[i].file, m[i].dataset);
    assert(is_group(m, m[i].file, m[i].dataset, j));
    if i < j {
        assert(!(m[i].file == m[j].file && m[i].dataset == m[j].dataset));
    } else if j < i {
        assert(!(m[j].file == m[i].file && m[j].dataset == m[i].dataset));
    }
}

#[derive(Debug)]
struct Group {
    file: usize,
    dataset: usize,
    attrs: Vec<(usize, usize)>,
}

#[derive(Debug)]
struct PooledAttr {
    hash: u64,
    value: StoreAttr,
}

/// Attribute writes that wait for the next flush.
///
/// Names and values repeat heavily across datasets, so the buffer holds each
/// distinct text and each distinct value once, and the groups name them by
/// position.
#[derive(Debug)]
pub struct PendingAttrs {
    groups: Vec<Group>,
    strings: Table<()>,
    values: Vec<PooledAttr>,
}

spec fn attr_models(
    attrs: Seq<(usize, usize)>,
    strings: Seq<(Seq<char>, ())>,
    values: Seq<PooledAttr>,
) -> Seq<(Seq<char>, StoreAttrModel)> {
    Seq::new(attrs.len(), |k: int| (strings[attrs[k].0 as int].0, values[attrs[k].1 as int].value@))
}

spec fn group_model(
    g: Group,
    strings: Seq<(Seq<char>, ())>,
    values: Seq<PooledAttr>,
) -> GroupModel {
    GroupModel {
        file: strings[g.file as int].0,
        dataset: strings[g.dataset as int].0,
        attrs: attr_models(g.attrs@, strings, values),
    }
}

spec fn group_models(
    groups: Seq<Group>,
    strings: Seq<(Seq<char>, ())>,
    values: Seq<PooledAttr>,
) -> Seq<GroupModel> {
    Seq::new(groups.len(), |i: int| group_model(groups[i], strings, values))
}

spec fn attrs_resolve(attrs: Seq<(usize, usize)>, strings: nat, values: nat) -> bool {
    forall|k: int|
        0 <= k < attrs.len() ==> (#[trigger] attrs[k]).0 < strings && attrs[k].1 < values
}

spec fn group_resolves(g: Group, strings: nat, values: nat) -> bool {
    g.file < strings && g.dataset < strings && attrs_resolve(g.attrs@, strings, values)
}

spec fn all_resolve(groups: Seq<Group>, strings: nat, values: nat) -> bool {
    forall|i: int| 0 <= i < groups.len() ==> group_resolves(#[trigger] groups[i], strings, values)
}

spec fn values_sound(values: Seq<PooledAttr>) -> bool {
    &&& forall|i: int|
        0 <= i < values.len() ==> (#[trigger] values[i]).hash == attr_hash(values[i].value@)
    &&& forall|i: int, j: int|
        0 <= i < j < values.len() ==> (#[trigger] values[i]).value@ != (
        #[trigger] values[j]).value@
}

/// Pools that grow at the end give the groups what they had.
proof fn lemma_pools_grow(
    groups: Seq<Group>,
    strings: Seq<(Seq<char>, ())>,
    values: Seq<PooledAttr>,
    more_strings: Seq<(Seq<char>, ())>,
    more_values: Seq<PooledAttr>,
)
    requires
        all_resolve(groups, strings.len(), values.len()),
        strings.len() <= more_strings.len(),
        values.len() <= more_values.len(),
        forall|i: int| 0 <= i < strings.len() ==> (#[trigger] more_strings[i]) == strings[i],
        forall|i: int| 0 <= i < values.len() ==> (#[trigger] more_values[i]) == values[i],
    ensures
        all_resolve(groups, more_strings.len(), more_values.len()),
        group_models(groups, more_strings, more_values) == group_models(groups, strings, values),
{
    assert forall|i: int| 0 <= i < groups.len() implies group_resolves(
        #[trigger] groups[i],
        more_strings.len(),
        more_values.len(),
    ) && group_model(groups[i], more_strings, more_values) == group_model(
        groups[i],
        strings,
        values,
    ) by {
        let g = groups[i];
        assert(group_resolves(g, strings.len(), values.len()));
        assert forall|k: int| 0 <= k < g.attrs@.len() implies (#[trigger] g.attrs@[k]).0
            < more_strings.len() && g.attrs@[k].1 < more_values.len() by {
            assert(g.attrs@[k].0 < strings.len());
        }
        assert(attr_models(g.attrs@, more_strings, more_values) =~= attr_models(
            g.attrs@,
            strings,
            values,
        )) by {
            assert forall|k: int| 0 <= k < g.attrs@.len() implies attr_models(
                g.attrs@,
                more_strings,
                more_values,
            )[k] == attr_models(g.attrs@, strings, values)[k] by {
                assert(g.attrs@[k].0 < strings.len());
            }
        }
    }
    assert(group_models(groups, more_strings, more_values) =~= group_models(
        groups,
        strings,
        values,
    ));
}

fn intern_str(strings: &mut Table<()>, text: &str) -> (at: usize)
    ensures
        keys_distinct(final(strings)@),
        at < final(strings)@.len(),
        final(strings)@[at as int].0 == text@,
        has_key(old(strings)@, text@) ==> final(strings)@ == old(strings)@,
        !has_key(old(strings)@, text@) ==> final(strings)@ == old(strings)@.push((text@, ())),
        old(strings)@.len() <= final(strings)@.len(),
        forall|i: int|
            0 <= i < old(strings)@.len() ==> (#[trigger] final(strings)@[i]) == old(strings)@[i],
{
    match strings.position(text) {
        Some(i) => i,
        None => {
            let at: usize = strings.len();
            strings.insert(text.to_owned(), ());
            at
        },
    }
}

fn intern_value(values: &mut Vec<PooledAttr>, value: StoreAttr) -> (at: usize)
    requires
        values_sound(old(values)@),
    ensures
        values_sound(final(values)@),
        at < final(values)@.len(),
        final(values)@[at as int].value@ == value@,
        old(values)@.len() <= final(values)@.len() <= old(values)@.len() + 1,
        final(values)@.len() > old(values)@.len() ==> at == old(values)@.len(),
        forall|i: int|
            0 <= i < old(values)@.len() ==> (#[trigger] final(values)@[i]) == old(values)@[i],
{
    let hash: u64 = hash_attr(&value);
    let mut i: usize = 0;
    while i < values.len()
        invariant
            i <= values@.len(),
            values@ == old(values)@,
            values_sound(values@),
            hash == attr_hash(value@),
            forall|j: int| 0 <= j < i ==> (#[trigger] values@[j]).value@ != value@,
        decreases values@.len() - i,
    {
        if values[i].hash == hash && values[i].value.same(&value) {
            return i;
        }
        i += 1;
    }
    values.push(PooledAttr { hash, value });
    i
}

/// The group of a file and a dataset. The newest groups come first: a writer
/// sets many keys of one dataset in a row.
fn find_group(groups: &Vec<Group>, file: usize, dataset: usize) -> (found: Option<usize>)
    ensures
        match found {
            Some(i) => i < groups@.len() && groups@[i as int].file == file
                && groups@[i as int].dataset == dataset,
            None => forall|i: int|
                0 <= i < groups@.len() ==> !((#[trigger] groups@[i]).file == file
                    && groups@[i].dataset == dataset),
        },
{
    let mut i: usize = groups.len();
    while i > 0
        invariant
            i <= groups@.len(),
            forall|j: int|
                i <= j < groups@.len() ==> !((#[trigger] groups@[j]).file == file
                    && groups@[j].dataset == dataset),
        decreases i,
    {
        i -= 1;
        if groups[i].file == file && groups[i].dataset == dataset {
            return Some(i);
        }
    }
    None
}

fn put_attr(attrs: &mut Vec<(usize, usize)>, key: usize, value: usize)
    ensures
        match (exists|k: int| 0 <= k < old(attrs)@.len() && (#[trigger] old(attrs)@[k]).0 == key) {
            true => exists|k: int|
                0 <= k < old(attrs)@.len() && old(attrs)@[k].0 == key && final(attrs)@
                    == #[trigger] old(attrs)@.update(k, (key, value)),
            false => final(attrs)@ == old(attrs)@.push((key, value)),
        },
{
    let mut k: usize = 0;
    while k < attrs.len()
        invariant
            k <= attrs@.len(),
            attrs@ == old(attrs)@,
            forall|j: int| 0 <= j < k ==> (#[trigger] attrs@[j]).0 != key,
        decreases attrs@.len() - k,
    {
        if attrs[k].0 == key {
            attrs.set(k, (key, value));
            assert(attrs@ == old(attrs)@.update(k as int, (key, value)));
            return;
        }
        k += 1;
    }
    attrs.push((key, value));
}

/// A write keeps every text in use, and every value but one it replaces.
proof fn lemma_uses(
    m: Seq<GroupModel>,
    file: Seq<char>,
    dataset: Seq<char>,
    key: Seq<char>,
    value: StoreAttrModel,
    text: Seq<char>,
    other: StoreAttrModel,
)
    requires
        tidy(m),
    ensures
        ({
            let after = with_attr(m, file, dataset, key, value);
            &&& uses_text(m, text) ==> uses_text(after, text)
            &&& text == file || text == dataset || text == key ==> uses_text(after, text)
            &&& uses_value(after, value)
            &&& uses_value(m, other) && pending_value(m, file, dataset, key) is None ==> uses_value(
                after,
                other,
            )
        }),
{
    let after = with_attr(m, file, dataset, key, value);
    law_get_reads_back_the_write(m, file, dataset, key, value, file, dataset, key);
    let at = group_index(after, file, dataset);
    assert(has_group(after, file, dataset)) by {
        assert(pending_value(after, file, dataset, key) is Some);
    }
    assert(is_group(after, file, dataset, at));
    let k = key_index(after[at].attrs, key);
    assert(has_key(after[at].attrs, key));
    assert(after[at].attrs[k].0 == key);
    assert(after[at].attrs[k].1 == value);
    assert(group_has(after[at], value));
    if uses_text(m, text) {
        let i = choose|i: int|
            0 <= i < m.len() && ((#[trigger] m[i]).file == text || m[i].dataset == text || has_key(
                m[i].attrs,
                text,
            ));
        if m[i].file != text && m[i].dataset != text {
            let n = key_index(m[i].attrs, text);
            assert(m[i].attrs[n].0 == text);
            if has_group(m, file, dataset) && i == group_index(m, file, dataset) {
                assert(after[i].attrs == with_entry(m[i].attrs, key, value));
                if has_key(m[i].attrs, key) {
                    assert(m[i].attrs[key_index(m[i].attrs, key)].0 == key);
                }
                assert(after[i].attrs[n].0 == text);
            } else {
                assert(after[i] == m[i]);
            }
        }
        assert(after[i].file == m[i].file && after[i].dataset == m[i].dataset);
    }
    if uses_value(m, other) && pending_value(m, file, dataset, key) is None {
        let i = choose|i: int| 0 <= i < m.len() && group_has(#[trigger] m[i], other);
        let n = choose|n: int| 0 <= n < m[i].attrs.len() && (#[trigger] m[i].attrs[n]).1 == other;
        assert(after[i].attrs[n].1 == other);
        assert(group_has(after[i], other));
    }
}

impl View for PendingAttrs {
    type V = Seq<GroupModel>;

    closed spec fn view(&self) -> Seq<GroupModel> {
        group_models(self.groups@, self.strings@, self.values@)
    }
}

impl PendingAttrs {
    #[verifier::type_invariant]
    spec fn well_formed(self) -> bool {
        &&& all_resolve(self.groups@, self.strings@.len(), self.values@.len())
        &&& keys_distinct(self.strings@)
        &&& values_sound(self.values@)
        &&& tidy(self@)
    }

    /// The distinct texts the buffer holds.
    pub closed spec fn texts_held(&self) -> Seq<Seq<char>> {
        Seq::new(self.strings@.len(), |i: int| self.strings@[i].0)
    }

    /// The distinct values the buffer holds.
    pub closed spec fn values_held(&self) -> Seq<StoreAttrModel> {
        Seq::new(self.values@.len(), |i: int| self.values@[i].value@)
    }

    /// An empty buffer.
    pub fn new() -> (pending: Self)
        ensures
            pending@ == Seq::<GroupModel>::empty(),
            pending.texts_held().len() == 0,
            pending.values_held().len() == 0,
    {
        let groups: Vec<Group> = Vec::new();
        let strings: Table<()> = Table::new();
        let values: Vec<PooledAttr> = Vec::new();
        assert(group_models(groups@, strings@, values@) =~= Seq::empty());
        PendingAttrs { groups, strings, values }
    }

    /// Buffers a write.
    pub fn set(&mut self, file: &str, dataset: &str, key: &str, value: StoreAttr)
        ensures
            final(self)@ == with_attr(old(self)@, file@, dataset@, key@, value@),
            tidy(final(self)@),
            forall|text: Seq<char>| #[trigger]
                final(self).texts_held().contains(text) ==> old(self).texts_held().contains(text)
                    || text == file@ || text == dataset@ || text == key@,
            forall|v: StoreAttrModel| #[trigger]
                final(self).values_held().contains(v) ==> old(self).values_held().contains(v) || v
                    == value@,
    {
        let ghost start = self@;
        let ghost texts_before = self.texts_held();
        let ghost values_before = self.values_held();
        let ghost model = value@;
        let mut whole = PendingAttrs::new();
        std::mem::swap(self, &mut whole);
        proof {
            use_type_invariant(&whole);
            law_get_reads_back_the_write(
                start,
                file@,
                dataset@,
                key@,
                model,
                file@,
                dataset@,
                key@,
            );
        }
        let PendingAttrs { mut groups, mut strings, mut values } = whole;
        let ghost strings0 = strings@;
        let ghost values0 = values@;
        let f: usize = intern_str(&mut strings, file);
        let ghost strings1 = strings@;
        let d: usize = intern_str(&mut strings, dataset);
        let ghost strings2 = strings@;
        let k: usize = intern_str(&mut strings, key);
        let v: usize = intern_value(&mut values, value);
        proof {
            assert(strings@[f as int].0 == file@);
            assert(strings@[d as int].0 == dataset@);
            lemma_pools_grow(groups@, strings0, values0, strings@, values@);
        }
        let ghost before = groups@;
        match find_group(&groups, f, d) {
            Some(i) => {
                let ghost g0 = groups@[i as int];
                let mut group = Group { file: f, dataset: d, attrs: Vec::new() };
                std::mem::swap(&mut groups[i], &mut group);
                assert(group == g0);
                put_attr(&mut group.attrs, k, v);
                let ghost g1 = group;
                groups.set(i, group);
                proof {
                    assert(groups@ =~= before.update(i as int, g1));
                    assert(group_resolves(g0, strings@.len(), values@.len()));
                    assert(start[i as int] == group_model(g0, strings@, values@));
                    assert(keys_distinct(start[i as int].attrs));
                    lemma_put(g0, g1, strings@, values@, k, v, key@, model);
                    lemma_group_index(start, i as int);
                    assert(group_models(groups@, strings@, values@) =~= with_attr(
                        start,
                        file@,
                        dataset@,
                        key@,
                        model,
                    ));
                    assert forall|n: int| 0 <= n < groups@.len() implies group_resolves(
                        #[trigger] groups@[n],
                        strings@.len(),
                        values@.len(),
                    ) by {
                        if n != i {
                            assert(groups@[n] == before[n]);
                        }
                    }
                }
            },
            None => {
                let mut attrs: Vec<(usize, usize)> = Vec::new();
                attrs.push((k, v));
                let ghost pair = attrs@;
                let group = Group { file: f, dataset: d, attrs };
                let ghost g1 = group;
                groups.push(group);
                proof {
                    assert forall|n: int| !(#[trigger] is_group(start, file@, dataset@, n)) by {
                        if is_group(start, file@, dataset@, n) {
                            let g = before[n];
                            assert(group_resolves(g, strings@.len(), values@.len()));
                            assert(start[n] == group_model(g, strings@, values@));
                            assert(strings@[g.file as int].0 == file@);
                            assert(strings@[g.dataset as int].0 == dataset@);
                            lemma_key_index(strings@, g.file as int);
                            lemma_key_index(strings@, f as int);
                            lemma_key_index(strings@, g.dataset as int);
                            lemma_key_index(strings@, d as int);
                        }
                    }
                    assert(attr_models(pair, strings@, values@) =~= seq![(key@, model)]);
                    assert(group_model(g1, strings@, values@) == (GroupModel {
                        file: file@,
                        dataset: dataset@,
                        attrs: seq![(key@, model)],
                    }));
                    assert(group_models(groups@, strings@, values@) =~= with_attr(
                        start,
                        file@,
                        dataset@,
                        key@,
                        model,
                    ));
                    assert(group_resolves(g1, strings@.len(), values@.len()));
                    assert forall|n: int| 0 <= n < groups@.len() implies group_resolves(
                        #[trigger] groups@[n],
                        strings@.len(),
                        values@.len(),
                    ) by {
                        if n < before.len() {
                            assert(groups@[n] == before[n]);
                        }
                    }
                }
            },
        }
        *self = PendingAttrs { groups, strings, values };
        proof {
            assert forall|text: Seq<char>| #[trigger]
                self.texts_held().contains(text) implies texts_before.contains(text) || text
                == file@ || text == dataset@ || text == key@ by {
                let n = self.texts_held().index_of(text);
                assert(strings@[n].0 == text);
                if n < strings0.len() {
                    assert(strings@[n] == strings0[n]);
                    assert(texts_before[n] == text);
                } else if n < strings1.len() {
                    assert(strings1 == strings0.push((file@, ())));
                    assert(strings@[n] == strings1[n]);
                } else if n < strings2.len() {
                    assert(strings2 == strings1.push((dataset@, ())));
                    assert(strings@[n] == strings2[n]);
                } else {
                    assert(strings@ == strings2.push((key@, ())));
                }
            }
            assert forall|x: StoreAttrModel| #[trigger]
                self.values_held().contains(x) implies values_before.contains(x) || x == model by {
                let n = self.values_held().index_of(x);
                if n < values0.len() {
                    assert(values@[n] == values0[n]);
                    assert(values_before[n] == x);
                }
            }
        }
    }

    /// What is waiting for a key.
    pub fn get(&self, file: &str, dataset: &str, key: &str) -> (value: Option<StoreAttr>)
        ensures
            match value {
                Some(v) => pending_value(self@, file@, dataset@, key@) == Some(v@),
                None => pending_value(self@, file@, dataset@, key@) is None,
            },
    {
        proof {
            use_type_invariant(self);
        }
        let f = self.strings.position(file);
        let d = self.strings.position(dataset);
        let k = self.strings.position(key);
        proof {
            if has_group(self@, file@, dataset@) {
                let i = group_index(self@, file@, dataset@);
                assert(is_group(self@, file@, dataset@, i));
                let g = self.groups@[i];
                assert(group_resolves(g, self.strings@.len(), self.values@.len()));
                assert(self@[i] == group_model(g, self.strings@, self.values@));
                lemma_key_index(self.strings@, g.file as int);
                lemma_key_index(self.strings@, g.dataset as int);
                lemma_attr_keys(g.attrs@, self.strings@, self.values@, key@);
            }
        }
        match (f, d, k) {
            (Some(f), Some(d), Some(k)) => match find_group(&self.groups, f, d) {
                Some(i) => {
                    proof {
                        assert(self@[i as int] == group_model(
                            self.groups@[i as int],
                            self.strings@,
                            self.values@,
                        ));
                        lemma_group_index(self@, i as int);
                        assert(group_resolves(
                            self.groups@[i as int],
                            self.strings@.len(),
                            self.values@.len(),
                        ));
                    }
                    self.find_value(i, k)
                },
                None => None,
            },
            _ => None,
        }
    }

    fn find_value(&self, i: usize, key: usize) -> (value: Option<StoreAttr>)
        requires
            i < self.groups@.len(),
            key < self.strings@.len(),
        ensures
            match value {
                Some(v) => value_of(self@[i as int].attrs, self.strings@[key as int].0) == Some(
                    v@,
                ),
                None => value_of(self@[i as int].attrs, self.strings@[key as int].0) is None,
            },
    {
        proof {
            use_type_invariant(self);
        }
        let attrs = &self.groups[i].attrs;
        let ghost models = self@[i as int].attrs;
        proof {
            assert(group_resolves(
                self.groups@[i as int],
                self.strings@.len(),
                self.values@.len(),
            ));
            assert(models == attr_models(attrs@, self.strings@, self.values@));
            assert(keys_distinct(models));
        }
        let mut k: usize = 0;
        while k < attrs.len()
            invariant
                k <= attrs@.len(),
                key < self.strings@.len(),
                keys_distinct(self.strings@),
                keys_distinct(models),
                models == self@[i as int].attrs,
                models == attr_models(attrs@, self.strings@, self.values@),
                attrs_resolve(attrs@, self.strings@.len(), self.values@.len()),
                forall|j: int| 0 <= j < k ==> (#[trigger] attrs@[j]).0 != key,
            decreases attrs@.len() - k,
        {
            assert(attrs@[k as int].1 < self.values@.len());
            if attrs[k].0 == key {
                proof {
                    lemma_key_index(models, k as int);
                }
                return Some(self.values[attrs[k].1].value.clone());
            }
            k += 1;
        }
        proof {
            let name = self.strings@[key as int].0;
            if has_key(models, name) {
                let n = key_index(models, name);
                assert(models[n].0 == name);
                assert(attrs@[n].0 < self.strings@.len());
                lemma_key_index(self.strings@, attrs@[n].0 as int);
                lemma_key_index(self.strings@, key as int);
            }
        }
        None
    }
}

/// What a write does to a group.
proof fn lemma_put(
    g0: Group,
    g1: Group,
    strings: Seq<(Seq<char>, ())>,
    values: Seq<PooledAttr>,
    k: usize,
    v: usize,
    key: Seq<char>,
    model: StoreAttrModel,
)
    requires
        group_resolves(g0, strings.len(), values.len()),
        keys_distinct(strings),
        keys_distinct(attr_models(g0.attrs@, strings, values)),
        k < strings.len(),
        strings[k as int].0 == key,
        v < values.len(),
        values[v as int].value@ == model,
        g1.file == g0.file,
        g1.dataset == g0.dataset,
        match (exists|n: int| 0 <= n < g0.attrs@.len() && (#[trigger] g0.attrs@[n]).0 == k) {
            true => exists|n: int|
                0 <= n < g0.attrs@.len() && g0.attrs@[n].0 == k && g1.attrs@
                    == #[trigger] g0.attrs@.update(n, (k, v)),
            false => g1.attrs@ == g0.attrs@.push((k, v)),
        },
    ensures
        group_resolves(g1, strings.len(), values.len()),
        attr_models(g1.attrs@, strings, values) == with_entry(
            attr_models(g0.attrs@, strings, values),
            key,
            model,
        ),
{
    let before = attr_models(g0.attrs@, strings, values);
    let after = attr_models(g1.attrs@, strings, values);
    assert forall|n: int| 0 <= n < g0.attrs@.len() implies ((#[trigger] g0.attrs@[n]).0 == k
        <==> before[n].0 == key) by {
        assert(g0.attrs@[n].0 < strings.len());
        lemma_key_index(strings, g0.attrs@[n].0 as int);
        lemma_key_index(strings, k as int);
    }
    if exists|n: int| 0 <= n < g0.attrs@.len() && (#[trigger] g0.attrs@[n]).0 == k {
        let n = choose|n: int|
            0 <= n < g0.attrs@.len() && g0.attrs@[n].0 == k && g1.attrs@
                == #[trigger] g0.attrs@.update(n, (k, v));
        assert(before[n].0 == key);
        lemma_key_index(before, n);
        assert(after =~= with_entry(before, key, model));
    } else {
        if has_key(before, key) {
            let n = key_index(before, key);
            assert(before[n].0 == key);
            assert(g0.attrs@[n].0 == k);
        }
        assert(after =~= with_entry(before, key, model));
    }
    assert forall|n: int| 0 <= n < g1.attrs@.len() implies (#[trigger] g1.attrs@[n]).0
        < strings.len() && g1.attrs@[n].1 < values.len() by {
        if n < g0.attrs@.len() {
            assert(g0.attrs@[n].0 < strings.len());
        }
    }
}

/// A key of a group is one of the pooled texts.
proof fn lemma_attr_keys(
    attrs: Seq<(usize, usize)>,
    strings: Seq<(Seq<char>, ())>,
    values: Seq<PooledAttr>,
    key: Seq<char>,
)
    requires
        attrs_resolve(attrs, strings.len(), values.len()),
        keys_distinct(strings),
    ensures
        has_key(attr_models(attrs, strings, values), key) ==> has_key(strings, key),
{
    let models = attr_models(attrs, strings, values);
    if has_key(models, key) {
        let n = key_index(models, key);
        assert(models[n].0 == key);
        assert(attrs[n].0 < strings.len());
        assert(strings[attrs[n].0 as int].0 == key);
    }
}

impl PendingAttrs {
    /// How many groups are waiting.
    pub fn group_count(&self) -> (count: usize)
        ensures
            count == self@.len(),
            tidy(self@),
    {
        proof {
            use_type_invariant(self);
        }
        self.groups.len()
    }

    /// The file a group goes to.
    pub fn file_at(&self, group: usize) -> (file: &str)
        requires
            group < self@.len(),
        ensures
            file@ == self@[group as int].file,
    {
        proof {
            use_type_invariant(self);
            assert(group_resolves(
                self.groups@[group as int],
                self.strings@.len(),
                self.values@.len(),
            ));
        }
        self.strings.name_at(self.groups[group].file)
    }

    /// The dataset a group belongs to.
    pub fn dataset_at(&self, group: usize) -> (dataset: &str)
        requires
            group < self@.len(),
        ensures
            dataset@ == self@[group as int].dataset,
    {
        proof {
            use_type_invariant(self);
            assert(group_resolves(
                self.groups@[group as int],
                self.strings@.len(),
                self.values@.len(),
            ));
        }
        self.strings.name_at(self.groups[group].dataset)
    }

    /// How many attributes a group has.
    pub fn attr_count(&self, group: usize) -> (count: usize)
        requires
            group < self@.len(),
        ensures
            count == self@[group as int].attrs.len(),
    {
        self.groups[group].attrs.len()
    }

    /// The key of an attribute.
    pub fn key_at(&self, group: usize, attr: usize) -> (key: &str)
        requires
            group < self@.len(),
            attr < self@[group as int].attrs.len(),
        ensures
            key@ == self@[group as int].attrs[attr as int].0,
    {
        proof {
            use_type_invariant(self);
            assert(group_resolves(
                self.groups@[group as int],
                self.strings@.len(),
                self.values@.len(),
            ));
        }
        let pair = self.groups[group].attrs[attr];
        assert(self.groups@[group as int].attrs@[attr as int].0 < self.strings@.len());
        self.strings.name_at(pair.0)
    }

    /// The place of an attribute's value among the distinct values. Two
    /// attributes have one place exactly when their values are the same.
    pub fn value_place(&self, group: usize, attr: usize) -> (place: usize)
        requires
            group < self@.len(),
            attr < self@[group as int].attrs.len(),
        ensures
            place < self.values_held().len(),
            self.values_held()[place as int] == self@[group as int].attrs[attr as int].1,
            self.values_held().no_duplicates(),
    {
        proof {
            use_type_invariant(self);
            assert(group_resolves(
                self.groups@[group as int],
                self.strings@.len(),
                self.values@.len(),
            ));
            assert forall|i: int, j: int|
                0 <= i < self.values_held().len() && 0 <= j < self.values_held().len() && i
                    != j implies self.values_held()[i] != self.values_held()[j] by {
                if i < j {
                    assert(self.values@[i].value@ != self.values@[j].value@);
                } else {
                    assert(self.values@[j].value@ != self.values@[i].value@);
                }
            }
        }
        let pair = self.groups[group].attrs[attr];
        assert(self.groups@[group as int].attrs@[attr as int].1 < self.values@.len());
        pair.1
    }

    /// The value of an attribute.
    pub fn value_at(&self, group: usize, attr: usize) -> (value: &StoreAttr)
        requires
            group < self@.len(),
            attr < self@[group as int].attrs.len(),
        ensures
            value@ == self@[group as int].attrs[attr as int].1,
    {
        let place: usize = self.value_place(group, attr);
        &self.values[place].value
    }

    /// How many distinct texts the buffer holds.
    pub fn text_count(&self) -> (count: usize)
        ensures
            count == self.texts_held().len(),
    {
        self.strings.len()
    }

    /// Whether the buffer holds a text.
    pub fn holds_text(&self, text: &str) -> (held: bool)
        ensures
            held == self.texts_held().contains(text@),
    {
        let held = self.strings.contains(text);
        proof {
            if held {
                let i = key_index(self.strings@, text@);
                assert(self.strings@[i].0 == text@);
                assert(self.texts_held()[i] == text@);
            }
            if self.texts_held().contains(text@) {
                let i = self.texts_held().index_of(text@);
                assert(self.strings@[i].0 == text@);
            }
        }
        held
    }

    /// How many distinct values the buffer holds.
    pub fn value_count(&self) -> (count: usize)
        ensures
            count == self.values_held().len(),
    {
        self.values.len()
    }

    /// Whether the buffer holds a value.
    pub fn holds_value(&self, value: &StoreAttr) -> (held: bool)
        ensures
            held == self.values_held().contains(value@),
    {
        let mut i: usize = 0;
        while i < self.values.len()
            invariant
                i <= self.values@.len(),
                forall|j: int| 0 <= j < i ==> self.values_held()[j] != value@,
            decreases self.values@.len() - i,
        {
            if self.values[i].value.same(value) {
                assert(self.values_held()[i as int] == value@);
                return true;
            }
            i += 1;
        }
        false
    }

    /// A buffer with the groups that stay. It holds no text and no value that
    /// none of them uses.
    fn without(&self, file: Option<&str>, dataset: &str) -> (kept: Self)
        ensures
            kept@ == kept_groups(
                self@,
                match file {
                    Some(f) => Some(f@),
                    None => None,
                },
                dataset@,
            ),
            forall|text: Seq<char>| #[trigger]
                kept.texts_held().contains(text) ==> uses_text(kept@, text),
            forall|v: StoreAttrModel| #[trigger]
                kept.values_held().contains(v) ==> uses_value(kept@, v),
    {
        proof {
            use_type_invariant(self);
        }
        let ghost m = self@;
        let ghost named = match file {
            Some(f) => Some(f@),
            None => None,
        };
        let count: usize = self.groups.len();
        let mut kept = PendingAttrs::new();
        let mut i: usize = 0;
        assert(m.take(0) =~= Seq::empty());
        while i < count
            invariant
                i <= count,
                m == self@,
                count == m.len(),
                tidy(m),
                named == (match file {
                    Some(f) => Some(f@),
                    None => None,
                }),
                kept@ == kept_groups(m.take(i as int), named, dataset@),
                forall|text: Seq<char>| #[trigger]
                    kept.texts_held().contains(text) ==> uses_text(kept@, text),
                forall|v: StoreAttrModel| #[trigger]
                    kept.values_held().contains(v) ==> uses_value(kept@, v),
            decreases count - i,
        {
            let group_file = self.file_at(i);
            let group_dataset = self.dataset_at(i);
            let ghost g = m[i as int];
            let ghost before = kept@;
            proof {
                assert(m.take(i + 1).drop_last() =~= m.take(i as int));
                assert(m.take(i + 1).last() == g);
                lemma_kept(m.take(i as int), named, dataset@);
                assert forall|n: int| 0 <= n < before.len() implies !((
                #[trigger] before[n]).file == g.file && before[n].dataset == g.dataset) by {
                    let k = choose|k: int|
                        0 <= k < i && before[n] == #[trigger] m.take(i as int)[k];
                    assert(before[n] == m[k]);
                    assert(!(m[k].file == m[i as int].file && m[k].dataset
                        == m[i as int].dataset));
                }
            }
            let of_file = match file {
                Some(f) => same_text(group_file, f),
                None => true,
            };
            if !(same_text(group_dataset, dataset) && of_file) {
                let attrs: usize = self.attr_count(i);
                let mut k: usize = 0;
                while k < attrs
                    invariant
                        k <= attrs,
                        m == self@,
                        tidy(m),
                        i < m.len(),
                        g == m[i as int],
                        attrs == g.attrs.len(),
                        attrs > 0,
                        keys_distinct(g.attrs),
                        group_file@ == g.file,
                        group_dataset@ == g.dataset,
                        forall|n: int|
                            0 <= n < before.len() ==> !((#[trigger] before[n]).file == g.file
                                && before[n].dataset == g.dataset),
                        kept@ == (if k == 0 {
                            before
                        } else {
                            before.push(GroupModel { attrs: g.attrs.take(k as int), ..g })
                        }),
                        tidy(before),
                        tidy(kept@),
                        forall|text: Seq<char>| #[trigger]
                            kept.texts_held().contains(text) ==> uses_text(kept@, text),
                        forall|v: StoreAttrModel| #[trigger]
                            kept.values_held().contains(v) ==> uses_value(kept@, v),
                    decreases attrs - k,
                {
                    let ghost at = kept@;
                    let ghost held = kept;
                    let key = self.key_at(i, k);
                    let value = self.value_at(i, k).clone();
                    let ghost model = value@;
                    proof {
                        let n = before.len() as int;
                        if k == 0 {
                            assert forall|p: int| !(#[trigger] is_group(
                                at,
                                g.file,
                                g.dataset,
                                p,
                            )) by {}
                        } else {
                            assert(at[n].attrs == g.attrs.take(k as int));
                            lemma_group_index(at, n);
                            if has_key(at[n].attrs, key@) {
                                let p = key_index(at[n].attrs, key@);
                                assert(at[n].attrs[p].0 == key@);
                                assert(g.attrs[p].0 != g.attrs[k as int].0);
                            }
                        }
                        assert(pending_value(at, g.file, g.dataset, key@) is None);
                    }
                    kept.set(group_file, group_dataset, key, value);
                    proof {
                        let n = before.len() as int;
                        let want = before.push(GroupModel { attrs: g.attrs.take(k + 1), ..g });
                        assert(g.attrs.take(k + 1) =~= g.attrs.take(k as int).push(
                            (key@, model),
                        ));
                        assert(g.attrs.take(1) =~= seq![g.attrs[0]]);
                        assert(kept@ =~= want);
                        assert forall|text: Seq<char>| #[trigger]
                            kept.texts_held().contains(text) implies uses_text(kept@, text) by {
                            lemma_uses(at, g.file, g.dataset, key@, model, text, model);
                            if held.texts_held().contains(text) {
                                assert(uses_text(at, text));
                            }
                        }
                        assert forall|v: StoreAttrModel| #[trigger]
                            kept.values_held().contains(v) implies uses_value(kept@, v) by {
                            lemma_uses(at, g.file, g.dataset, key@, model, key@, v);
                            if held.values_held().contains(v) {
                                assert(uses_value(at, v));
                            }
                        }
                    }
                    k += 1;
                }
                assert(g.attrs.take(k as int) =~= g.attrs);
            }
            i += 1;
        }
        assert(m.take(i as int) =~= m);
        kept
    }

    /// Drops every buffered write of one dataset to one file.
    pub fn remove(&mut self, file: &str, dataset: &str)
        ensures
            final(self)@ == kept_groups(old(self)@, Some(file@), dataset@),
            forall|text: Seq<char>| #[trigger]
                final(self).texts_held().contains(text) ==> uses_text(final(self)@, text),
            forall|v: StoreAttrModel| #[trigger]
                final(self).values_held().contains(v) ==> uses_value(final(self)@, v),
    {
        *self = self.without(Some(file), dataset);
    }

    /// Drops every buffered write of a dataset, across all files.
    pub fn remove_dataset(&mut self, dataset: &str)
        ensures
            final(self)@ == kept_groups(old(self)@, None, dataset@),
            forall|text: Seq<char>| #[trigger]
                final(self).texts_held().contains(text) ==> uses_text(final(self)@, text),
            forall|v: StoreAttrModel| #[trigger]
                final(self).values_held().contains(v) ==> uses_value(final(self)@, v),
    {
        *self = self.without(None, dataset);
    }

    /// Hands out everything that waits, and leaves an empty buffer.
    pub fn drain_all(&mut self) -> (drained: Self)
        ensures
            drained@ == old(self)@,
            drained.values_held() == old(self).values_held(),
            final(self)@ == Seq::<GroupModel>::empty(),
            final(self).texts_held().len() == 0,
            final(self).values_held().len() == 0,
    {
        let mut drained = PendingAttrs::new();
        std::mem::swap(self, &mut drained);
        drained
    }
}

/// The groups that stay are groups of before, and tidy.
proof fn lemma_kept(m: Seq<GroupModel>, file: Option<Seq<char>>, dataset: Seq<char>)
    requires
        tidy(m),
    ensures
        tidy(kept_groups(m, file, dataset)),
        forall|i: int|
            0 <= i < kept_groups(m, file, dataset).len() ==> exists|k: int|
                0 <= k < m.len() && (#[trigger] kept_groups(m, file, dataset)[i])
                    == #[trigger] m[k],
    decreases m.len(),
{
    if m.len() > 0 {
        let shorter = m.drop_last();
        assert(tidy(shorter)) by {
            assert forall|i: int, j: int| 0 <= i < j < shorter.len() implies !((
            #[trigger] shorter[i]).file == (#[trigger] shorter[j]).file && shorter[i].dataset
                == shorter[j].dataset) by {
                assert(!(m[i].file == m[j].file && m[i].dataset == m[j].dataset));
            }
            assert forall|i: int| 0 <= i < shorter.len() implies (
            #[trigger] shorter[i]).attrs.len() > 0 && keys_distinct(shorter[i].attrs) by {
                assert(m[i] == shorter[i]);
            }
        }
        lemma_kept(shorter, file, dataset);
        let front = kept_groups(shorter, file, dataset);
        let all = kept_groups(m, file, dataset);
        assert forall|i: int| 0 <= i < all.len() implies exists|k: int|
            0 <= k < m.len() && (#[trigger] all[i]) == #[trigger] m[k] by {
            if i < front.len() {
                assert(all[i] == front[i]);
                let k = choose|k: int| 0 <= k < shorter.len() && front[i] == #[trigger] shorter[k];
                assert(m[k] == all[i]);
            } else {
                assert(all[i] == m[m.len() - 1]);
            }
        }
        assert forall|i: int, j: int| 0 <= i < j < all.len() implies !((#[trigger] all[i]).file == (
        #[trigger] all[j]).file && all[i].dataset == all[j].dataset) by {
            if j < front.len() {
                assert(!(front[i].file == front[j].file && front[i].dataset == front[j].dataset));
            } else {
                assert(all[i] == front[i]);
                let k = choose|k: int| 0 <= k < shorter.len() && front[i] == #[trigger] shorter[k];
                assert(!(m[k].file == m[m.len() - 1].file && m[k].dataset
                    == m[m.len() - 1].dataset));
            }
        }
        assert forall|i: int| 0 <= i < all.len() implies (#[trigger] all[i]).attrs.len() > 0
            && keys_distinct(all[i].attrs) by {
            if i < front.len() {
                assert(all[i] == front[i]);
            } else {
                assert(all[i] == m[m.len() - 1]);
            }
        }
    }
}

/// Dropping the writes of a dataset leaves those of every other dataset, and
/// where one file is named, those for every other file, all in their order.
pub proof fn law_only_the_named_writes_are_dropped(
    m: Seq<GroupModel>,
    file: Seq<char>,
    dataset: Seq<char>,
)
    ensures
        kept_groups(m, None, dataset) == m.filter(|g: GroupModel| g.dataset != dataset),
        kept_groups(m, Some(file), dataset) == m.filter(
            |g: GroupModel| g.dataset != dataset || g.file != file,
        ),
    decreases m.len(),
{
    reveal(Seq::filter);
    if m.len() > 0 {
        law_only_the_named_writes_are_dropped(m.drop_last(), file, dataset);
    }
}

} // verus!
