//! The deletion mask: the one thing about a collection that can change.
//!
//! The container is write-once, so deleting a dataset cannot touch it. Instead
//! a small sidecar records the ordinals of deleted datasets, and the reader
//! hides them.
//!
//! ```text
//! b"ATLM"          4 B   magic
//! version u32 LE   4 B   = 1
//! count   u32 LE   4 B
//! count x u32 LE         ordinals, strictly increasing
//! ```
//!
//! # Tolerance
//!
//! An absent mask means nothing is deleted; the writer never creates one. An
//! ordinal past the end of the footer is ignored, so a mask left over from a
//! different container cannot stop a collection from opening. Only a file that
//! is no mask is an error.

use crate::bytes::{
    law_le_roundtrip, le_bytes, le_value, lemma_le_bytes_len, lemma_le_ranges,
    lemma_le_value_bound, push_le, read_le,
};
use crate::error::{Error, Result};
use crate::text::{decimal, decimal_text};
use std::collections::BTreeSet;
use vstd::prelude::*;
use vstd::std_specs::btree::increasing_seq;

verus! {

broadcast use {vstd::std_specs::btree::group_btree_axioms, vstd::laws_cmp::group_laws_cmp};

/// Version of the mask layout.
pub const MASK_VERSION: u32 = 1;

/// Bytes before the first ordinal: magic + version + count.
pub const MASK_HEADER_SIZE: usize = 12;

/// Magic at the first four bytes of a mask.
pub open spec fn mask_magic() -> Seq<u8> {
    seq![65u8, 84u8, 76u8, 77u8]
}

/// Every number is larger than the ones before it.
pub open spec fn strictly_increasing(list: Seq<u32>) -> bool {
    forall|i: int, j: int| 0 <= i < j < list.len() ==> list[i] < list[j]
}

/// `list` holds the members of `set` and nothing else, in increasing order.
pub open spec fn lists(list: Seq<u32>, set: Set<u32>) -> bool {
    &&& strictly_increasing(list)
    &&& forall|x: u32| #[trigger] set.contains(x) <==> list.contains(x)
}

/// The members of a set in increasing order.
pub open spec fn ascending(set: Set<u32>) -> Seq<u32> {
    choose|list: Seq<u32>| lists(list, set)
}

/// The ordinals of a mask body.
pub open spec fn body_bytes(list: Seq<u32>) -> Seq<u8>
    decreases list.len(),
{
    if list.len() == 0 {
        Seq::empty()
    } else {
        body_bytes(list.drop_last()) + le_bytes(list.last() as nat, 4)
    }
}

/// The mask sidecar of a set of ordinals.
pub open spec fn mask_bytes(ordinals: Set<u32>) -> Seq<u8> {
    let list = ascending(ordinals);
    mask_magic() + le_bytes(MASK_VERSION as nat, 4) + le_bytes(list.len(), 4) + body_bytes(list)
}

/// How many ordinals of a mask can be read: as many as it declares, and no
/// more than its body holds.
pub open spec fn entry_count(bytes: Seq<u8>) -> nat {
    let declared = le_value(bytes.subrange(8, 12));
    let available = ((bytes.len() - MASK_HEADER_SIZE) / 4) as nat;
    if declared < available {
        declared
    } else {
        available
    }
}

/// The ordinal at a position of a mask body.
pub open spec fn entry(bytes: Seq<u8>, i: int) -> nat {
    le_value(bytes.subrange(MASK_HEADER_SIZE + 4 * i, MASK_HEADER_SIZE + 4 * i + 4))
}

/// The datasets a mask hides, among the first `dataset_count` ordinals.
pub open spec fn hidden_by(bytes: Seq<u8>, dataset_count: nat) -> Set<u32> {
    Set::new(
        |o: u32|
            o < dataset_count && exists|i: int|
                0 <= i < entry_count(bytes) && #[trigger] entry(bytes, i) == o,
    )
}

/// What a mask sidecar says.
pub open spec fn mask_of(bytes: Seq<u8>, dataset_count: nat) -> std::result::Result<
    Set<u32>,
    Error<Seq<char>>,
> {
    let version = le_value(bytes.subrange(4, 8));
    if bytes.len() == 0 {
        Ok(Set::empty())
    } else if bytes.len() < MASK_HEADER_SIZE || bytes.take(4) != mask_magic() {
        Err(Error::CorruptMask("file does not start with the ATLM magic"@))
    } else if version != MASK_VERSION {
        Err(
            Error::CorruptMask(
                "mask version "@ + decimal(version)
                    + " is not supported; this atlas writes version 1"@,
            ),
        )
    } else {
        Ok(hidden_by(bytes, dataset_count))
    }
}

/// Two increasing lists of one set are the same list.
proof fn lemma_lists_unique(a: Seq<u32>, b: Seq<u32>, set: Set<u32>)
    requires
        lists(a, set),
        lists(b, set),
    ensures
        a == b,
    decreases a.len(),
{
    if a.len() == 0 {
        if b.len() > 0 {
            assert(b.contains(b[0]));
            assert(set.contains(b[0]));
        }
        assert(a =~= b);
    } else {
        let x = a.last();
        assert(a.contains(x));
        assert(set.contains(x));
        assert(b.contains(x));
        let y = b.last();
        assert(b.contains(y));
        assert(set.contains(y));
        assert(a.contains(y));
        let i = a.index_of(y);
        let j = b.index_of(x);
        assert(x == y);
        assert(lists(a.drop_last(), set.remove(x))) by {
            lemma_lists_without_last(a, set);
        }
        assert(lists(b.drop_last(), set.remove(x))) by {
            lemma_lists_without_last(b, set);
        }
        lemma_lists_unique(a.drop_last(), b.drop_last(), set.remove(x));
        assert(a =~= a.drop_last().push(x));
        assert(b =~= b.drop_last().push(x));
    }
}

proof fn lemma_lists_without_last(list: Seq<u32>, set: Set<u32>)
    requires
        list.len() > 0,
        lists(list, set),
    ensures
        lists(list.drop_last(), set.remove(list.last())),
{
    let rest = list.drop_last();
    assert forall|v: u32| #[trigger] set.remove(list.last()).contains(v) <==> rest.contains(v) by {
        if set.remove(list.last()).contains(v) {
            assert(list.contains(v));
            let i = list.index_of(v);
            assert(rest[i] == v);
        }
        if rest.contains(v) {
            let i = rest.index_of(v);
            assert(list[i] == v);
            assert(list.contains(v));
            assert(list[i] < list[list.len() - 1]);
        }
    }
}

/// The increasing list of a set is the only one.
pub proof fn lemma_ascending(list: Seq<u32>, set: Set<u32>)
    requires
        lists(list, set),
    ensures
        ascending(set) == list,
{
    lemma_lists_unique(ascending(set), list, set);
}

proof fn lemma_listed_below(set: Set<u32>, bound: int) -> (list: Seq<u32>)
    requires
        0 <= bound,
    ensures
        strictly_increasing(list),
        forall|x: u32| #[trigger] list.contains(x) <==> set.contains(x) && x < bound,
    decreases bound,
{
    if bound == 0 {
        Seq::empty()
    } else {
        let front = lemma_listed_below(set, bound - 1);
        let top = (bound - 1) as u32;
        if bound - 1 <= u32::MAX && set.contains(top) {
            let list = front.push(top);
            assert forall|i: int, j: int| 0 <= i < j < list.len() implies list[i] < list[j] by {
                assert(front.contains(front[i]));
            }
            assert forall|x: u32| #[trigger] list.contains(x) <==> set.contains(x) && x < bound by {
                if list.contains(x) {
                    let i = list.index_of(x);
                    assert(i == front.len() || front[i] == x);
                }
                if x == top {
                    assert(list[front.len() as int] == x);
                } else if front.contains(x) {
                    let i = front.index_of(x);
                    assert(list[i] == x);
                }
            }
            list
        } else {
            front
        }
    }
}

/// Every set has an increasing list, so `ascending` is the list of the set.
pub proof fn lemma_ascending_lists(set: Set<u32>)
    ensures
        lists(ascending(set), set),
        ascending(set).len() == set.len(),
{
    let list = lemma_listed_below(set, 0x1_0000_0000);
    assert(lists(list, set));
    let chosen = ascending(set);
    assert(chosen.to_set() =~= set) by {
        assert forall|x: u32| #[trigger] chosen.to_set().contains(x) <==> set.contains(x) by {}
    }
    chosen.unique_seq_to_set();
}

proof fn lemma_body(list: Seq<u32>, i: int)
    requires
        0 <= i < list.len(),
    ensures
        body_bytes(list).len() == 4 * list.len(),
        body_bytes(list).subrange(4 * i, 4 * i + 4) == le_bytes(list[i] as nat, 4),
    decreases list.len(),
{
    lemma_body_len(list);
    lemma_body_len(list.drop_last());
    lemma_le_bytes_len(list.last() as nat, 4);
    if i < list.len() - 1 {
        lemma_body(list.drop_last(), i);
        assert(body_bytes(list).subrange(4 * i, 4 * i + 4) =~= body_bytes(
            list.drop_last(),
        ).subrange(4 * i, 4 * i + 4));
    } else {
        assert(body_bytes(list).subrange(4 * i, 4 * i + 4) =~= le_bytes(list.last() as nat, 4));
    }
}

proof fn lemma_body_len(list: Seq<u32>)
    ensures
        body_bytes(list).len() == 4 * list.len(),
    decreases list.len(),
{
    if list.len() > 0 {
        lemma_body_len(list.drop_last());
        lemma_le_bytes_len(list.last() as nat, 4);
    }
}

/// A mask that was written reads back as the ordinals that name a dataset.
/// The insertion order of the ordinals does not reach the file: its bytes are
/// a function of the set.
pub proof fn law_mask_roundtrip(ordinals: Set<u32>, dataset_count: nat)
    requires
        ordinals.len() < 0x1_0000_0000,
    ensures
        mask_of(mask_bytes(ordinals), dataset_count) == Ok::<Set<u32>, Error<Seq<char>>>(
            ordinals.filter(|o: u32| o < dataset_count),
        ),
{
    let list = ascending(ordinals);
    lemma_ascending_lists(ordinals);
    lemma_le_ranges();
    law_le_roundtrip(MASK_VERSION as nat, 4);
    law_le_roundtrip(list.len(), 4);
    lemma_body_len(list);
    let bytes = mask_bytes(ordinals);
    assert(bytes.take(4) =~= mask_magic());
    assert(bytes.subrange(4, 8) =~= le_bytes(MASK_VERSION as nat, 4));
    assert(bytes.subrange(8, 12) =~= le_bytes(list.len(), 4));
    assert(entry_count(bytes) == list.len());
    assert forall|i: int| 0 <= i < list.len() implies #[trigger] entry(bytes, i) == list[i] by {
        lemma_body(list, i);
        assert(bytes.subrange(12 + 4 * i, 12 + 4 * i + 4) =~= body_bytes(list).subrange(
            4 * i,
            4 * i + 4,
        ));
        law_le_roundtrip(list[i] as nat, 4);
    }
    let kept = ordinals.filter(|o: u32| o < dataset_count);
    assert forall|o: u32|
        hidden_by(bytes, dataset_count).contains(o) <==> #[trigger] kept.contains(o) by {
        if hidden_by(bytes, dataset_count).contains(o) {
            let i = choose|i: int| 0 <= i < entry_count(bytes) && #[trigger] entry(bytes, i) == o;
            assert(list[i] == o);
            assert(list.contains(o));
        }
        if ordinals.contains(o) && o < dataset_count {
            assert(list.contains(o));
            let i = list.index_of(o);
            assert(entry(bytes, i) == o);
        }
    }
    assert(hidden_by(bytes, dataset_count) =~= kept);
}

broadcast proof fn lemma_increasing_refs(s: Seq<&u32>)
    requires
        increasing_seq(s),
    ensures
        lists(#[trigger] s.unref(), s.unref().to_set()),
{
    let list = s.unref();
    assert(vstd::laws_cmp::obeys_cmp::<&u32>());
    assert forall|i: int, j: int| 0 <= i < j < list.len() implies list[i] < list[j] by {
        assert(vstd::std_specs::cmp::OrdSpec::cmp_spec(&s[i], &s[j]) is Less);
        assert(list[i] == *s[i]);
        assert(list[j] == *s[j]);
    }
    assert forall|x: u32| #[trigger] list.to_set().contains(x) <==> list.contains(x) by {}
}

/// The members of a set, in increasing order.
pub fn in_increasing_order(set: &BTreeSet<u32>) -> (list: Vec<u32>)
    ensures
        list@ == ascending(set@),
        lists(list@, set@),
        list@.len() == set@.len(),
{
    broadcast use lemma_increasing_refs;

    let mut list: Vec<u32> = Vec::new();
    for o in it: set.iter()
        invariant
            list@ == it.seq().unref().take(it.index() as int),
            it.seq().unref().to_set() == set@,
            increasing_seq(it.seq()),
            it.seq().len() == set@.len(),
            lists(it.seq().unref(), set@),
            it.index() == it.seq().len() ==> list@ =~= it.seq().unref(),
        ensures
            lists(list@, set@),
            list@.len() == set@.len(),
    {
        list.push(*o);
        assert(list@ =~= it.seq().unref().take(it.index() + 1));
    }
    proof {
        lemma_ascending(list@, set@);
    }
    list
}

/// Encodes `ordinals` into the mask sidecar layout.
pub fn encode(ordinals: &BTreeSet<u32>) -> (out: Vec<u8>)
    ensures
        out@ == mask_bytes(ordinals@),
{
    let list = in_increasing_order(ordinals);
    let mut out: Vec<u8> = Vec::new();
    out.push(65);
    out.push(84);
    out.push(76);
    out.push(77);
    assert(out@ =~= mask_magic());
    push_le(&mut out, MASK_VERSION as u64, 4);
    push_le(&mut out, list.len() as u64, 4);
    let ghost head = out@;
    assert(head + body_bytes(list@.take(0)) =~= head);
    let mut i: usize = 0;
    while i < list.len()
        invariant
            i <= list@.len(),
            out@ == head + body_bytes(list@.take(i as int)),
        decreases list@.len() - i,
    {
        push_le(&mut out, list[i] as u64, 4);
        assert(list@.take(i + 1).drop_last() =~= list@.take(i as int));
        assert(out@ =~= head + body_bytes(list@.take(i + 1)));
        i += 1;
    }
    assert(list@.take(list@.len() as int) =~= list@);
    assert(out@ =~= mask_bytes(ordinals@));
    out
}

fn is_mask_magic(bytes: &[u8]) -> (same: bool)
    requires
        bytes@.len() >= 4,
    ensures
        same == (bytes@.take(4) == mask_magic()),
{
    let same = bytes[0] == 65 && bytes[1] == 84 && bytes[2] == 76 && bytes[3] == 77;
    proof {
        let part = bytes@.take(4);
        assert(part[0] == bytes@[0]);
        assert(part[1] == bytes@[1]);
        assert(part[2] == bytes@[2]);
        assert(part[3] == bytes@[3]);
        if same {
            assert(part =~= mask_magic());
        }
    }
    same
}

/// Decodes a mask sidecar, dropping ordinals that do not name a dataset.
///
/// `dataset_count` bounds the valid range. Returns an error only when the file
/// is not a mask at all.
pub fn decode(bytes: &[u8], dataset_count: usize) -> (hidden: Result<BTreeSet<u32>>)
    ensures
        match hidden {
            Ok(set) => mask_of(bytes@, dataset_count as nat) == Ok::<Set<u32>, Error<Seq<char>>>(
                set@,
            ),
            Err(e) => mask_of(bytes@, dataset_count as nat) == Err::<Set<u32>, Error<Seq<char>>>(
                e@,
            ),
        },
{
    let len: usize = bytes.len();
    if len == 0 {
        return Ok(BTreeSet::new());
    }
    if len < MASK_HEADER_SIZE || !is_mask_magic(bytes) {
        return Err(Error::CorruptMask("file does not start with the ATLM magic".to_owned()));
    }
    let version: u64 = read_le(bytes, 4, 4);
    if version != MASK_VERSION as u64 {
        let mut text: String = "mask version ".to_owned();
        text.append(decimal_text(version).as_str());
        text.append(" is not supported; this atlas writes version 1");
        return Err(Error::CorruptMask(text));
    }
    proof {
        lemma_le_ranges();
        lemma_le_value_bound(bytes@.subrange(8, 12));
    }
    let declared: u64 = read_le(bytes, 8, 4);
    let available: usize = (len - MASK_HEADER_SIZE) / 4;
    let count: usize = if declared < available as u64 {
        declared as usize
    } else {
        available
    };
    let mut out: BTreeSet<u32> = BTreeSet::new();
    let mut i: usize = 0;
    while i < count
        invariant
            count == entry_count(bytes@),
            12 + 4 * count <= bytes@.len(),
            bytes@.len() == len,
            i <= count,
            forall|o: u32|
                #[trigger] out@.contains(o) <==> o < dataset_count && exists|k: int|
                    0 <= k < i && #[trigger] entry(bytes@, k) == o,
        decreases count - i,
    {
        let ghost before = out@;
        let at: usize = 12 + 4 * i;
        let value: u64 = read_le(bytes, at, 4);
        proof {
            lemma_le_ranges();
            lemma_le_value_bound(bytes@.subrange(at as int, at + 4));
            assert(entry(bytes@, i as int) == value);
        }
        let ordinal: u32 = value as u32;
        if value < dataset_count as u64 {
            out.insert(ordinal);
        }
        proof {
            assert forall|o: u32| #[trigger]
                out@.contains(o) <==> o < dataset_count && exists|k: int|
                    0 <= k < i + 1 && #[trigger] entry(bytes@, k) == o by {
                if o < dataset_count && exists|k: int|
                    0 <= k < i + 1 && #[trigger] entry(bytes@, k) == o {
                    let k = choose|k: int| 0 <= k < i + 1 && #[trigger] entry(bytes@, k) == o;
                    if k < i {
                        assert(before.contains(o));
                    }
                }
                if out@.contains(o) {
                    if before.contains(o) {
                        let k = choose|k: int| 0 <= k < i && #[trigger] entry(bytes@, k) == o;
                        assert(0 <= k < i + 1 && entry(bytes@, k) == o);
                    } else {
                        assert(entry(bytes@, i as int) == o);
                    }
                }
            }
        }
        i += 1;
    }
    assert(out@ =~= hidden_by(bytes@, dataset_count as nat));
    Ok(out)
}

/// A mask that is not empty is read only where it begins with the magic and the
/// version of this format. An empty one hides nothing.
pub proof fn law_only_masks_are_read(bytes: Seq<u8>, dataset_count: nat)
    ensures
        bytes.len() == 0 ==> mask_of(bytes, dataset_count) == Ok::<Set<u32>, Error<Seq<char>>>(
            Set::empty(),
        ),
        bytes.len() > 0 ==> (mask_of(bytes, dataset_count) is Ok <==> {
            &&& bytes.len() >= MASK_HEADER_SIZE
            &&& bytes[0] == 65 && bytes[1] == 84 && bytes[2] == 76 && bytes[3] == 77
            &&& le_value(bytes.subrange(4, 8)) == MASK_VERSION
        }),
{
    if bytes.len() >= MASK_HEADER_SIZE {
        let start = bytes.take(4);
        assert(start[0] == bytes[0] && start[1] == bytes[1] && start[2] == bytes[2] && start[3]
            == bytes[3]);
        if start[0] == 65 && start[1] == 84 && start[2] == 76 && start[3] == 77 {
            assert(start =~= mask_magic());
        }
    }
}

/// A dataset is hidden exactly where one of the numbers of the mask is its
/// ordinal: one of those the mask declares, and whose four bytes are there. A
/// number that names no dataset hides none.
pub proof fn law_a_mask_hides_what_it_names(bytes: Seq<u8>, dataset_count: nat, ordinal: u32)
    requires
        bytes.len() >= MASK_HEADER_SIZE,
    ensures
        hidden_by(bytes, dataset_count).contains(ordinal) <==> {
            &&& ordinal < dataset_count
            &&& exists|i: int|
                {
                    &&& 0 <= i < le_value(bytes.subrange(8, 12))
                    &&& MASK_HEADER_SIZE + 4 * i + 4 <= bytes.len()
                    &&& le_value(
                        #[trigger] bytes.subrange(
                            MASK_HEADER_SIZE + 4 * i,
                            MASK_HEADER_SIZE + 4 * i + 4,
                        ),
                    ) == ordinal
                }
        },
{
    if hidden_by(bytes, dataset_count).contains(ordinal) {
        let i = choose|i: int|
            0 <= i < entry_count(bytes) && #[trigger] entry(bytes, i) == ordinal;
        let part = bytes.subrange(MASK_HEADER_SIZE + 4 * i, MASK_HEADER_SIZE + 4 * i + 4);
        assert(le_value(part) == ordinal);
    }
    if exists|i: int|
        {
            &&& 0 <= i < le_value(bytes.subrange(8, 12))
            &&& MASK_HEADER_SIZE + 4 * i + 4 <= bytes.len()
            &&& le_value(
                #[trigger] bytes.subrange(
                    MASK_HEADER_SIZE + 4 * i,
                    MASK_HEADER_SIZE + 4 * i + 4,
                ),
            ) == ordinal
        } {
        let i = choose|i: int|
            {
                &&& 0 <= i < le_value(bytes.subrange(8, 12))
                &&& MASK_HEADER_SIZE + 4 * i + 4 <= bytes.len()
                &&& le_value(
                    #[trigger] bytes.subrange(
                        MASK_HEADER_SIZE + 4 * i,
                        MASK_HEADER_SIZE + 4 * i + 4,
                    ),
                ) == ordinal
            };
        assert(entry(bytes, i) == ordinal);
        assert(i < entry_count(bytes));
    }
}

} // verus!
