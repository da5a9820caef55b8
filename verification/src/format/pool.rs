//! Pools of distinct items, and the interner that fills them during a write.
//!
//! Every string interns once, whether it names an array or an attribute. Every
//! type interns once. Every distinct schema interns once. A schema is therefore
//! a list of pairs of pool positions, and a dataset is one position in the
//! schema pool.

use crate::schema::attr::{attr_dtype, Attr};
use crate::schema::dtype::DType;
use crate::table::Table;
use vstd::prelude::*;

verus! {

/// What one dataset declares. Names and types, in definition order.
#[derive(Debug, PartialEq, Eq)]
pub struct InternedSchema {
    /// `(array name, element type)`, in definition order.
    pub arrays: Vec<(u32, u32)>,
    /// `(attribute key, value type)` at the dataset level, in the order
    /// somebody set them.
    pub attrs: Vec<(u32, u32)>,
    /// Per-array attributes as `(array position, [(key, value type)])`.
    pub array_attrs: Vec<(u32, Vec<(u32, u32)>)>,
}

/// What an interned schema holds.
#[verifier::ext_equal]
pub struct SchemaModel {
    /// `(array name, element type)`, in definition order.
    pub arrays: Seq<(u32, u32)>,
    /// `(attribute key, value type)` at the dataset level.
    pub attrs: Seq<(u32, u32)>,
    /// Per-array attributes.
    pub array_attrs: Seq<(u32, Seq<(u32, u32)>)>,
}

/// The pairs of each annotated array.
pub open spec fn annotations(list: Seq<(u32, Vec<(u32, u32)>)>) -> Seq<(u32, Seq<(u32, u32)>)> {
    Seq::new(list.len(), |i: int| (list[i].0, list[i].1@))
}

impl View for InternedSchema {
    type V = SchemaModel;

    open spec fn view(&self) -> SchemaModel {
        SchemaModel {
            arrays: self.arrays@,
            attrs: self.attrs@,
            array_attrs: annotations(self.array_attrs@),
        }
    }
}

/// The schemas of a pool.
pub open spec fn models(pool: Seq<InternedSchema>) -> Seq<SchemaModel> {
    Seq::new(pool.len(), |i: int| pool[i]@)
}

/// `i` is the first position of `item` in a pool.
pub open spec fn first_at<T>(pool: Seq<T>, item: T, i: int) -> bool {
    &&& 0 <= i < pool.len()
    &&& pool[i] == item
    &&& forall|j: int| 0 <= j < i ==> pool[j] != item
}

/// The position of an item in a pool once it is interned: where it stands, or
/// the end.
pub open spec fn place<T>(pool: Seq<T>, item: T) -> int {
    if pool.contains(item) {
        choose|i: int| first_at(pool, item, i)
    } else {
        pool.len() as int
    }
}

/// A pool once an item is interned.
pub open spec fn pooled<T>(pool: Seq<T>, item: T) -> Seq<T> {
    if pool.contains(item) {
        pool
    } else {
        pool.push(item)
    }
}

/// `before` is the start of `after`.
pub open spec fn extends<T>(before: Seq<T>, after: Seq<T>) -> bool {
    before.len() <= after.len() && after.take(before.len() as int) == before
}

/// The first position is unique.
pub proof fn lemma_first_at<T>(pool: Seq<T>, item: T, i: int)
    requires
        first_at(pool, item, i),
    ensures
        pool.contains(item),
        place(pool, item) == i,
{
    assert(pool[i] == item);
    let j = place(pool, item);
    assert(first_at(pool, item, j));
    if j < i {
        assert(pool[j] != item);
    } else if i < j {
        assert(pool[i] != item);
    }
}

proof fn lemma_first_exists<T>(pool: Seq<T>, item: T, i: int)
    requires
        0 <= i < pool.len(),
        pool[i] == item,
    ensures
        exists|k: int| first_at(pool, item, k),
    decreases i,
{
    if exists|j: int| 0 <= j < i && pool[j] == item {
        let j = choose|j: int| 0 <= j < i && pool[j] == item;
        lemma_first_exists(pool, item, j);
    } else {
        assert(first_at(pool, item, i));
    }
}

/// An interned item stands at its place; the items before it keep theirs; the
/// pool stays distinct; and equal items have one place.
pub proof fn law_interning<T>(pool: Seq<T>, item: T, other: T)
    ensures
        0 <= place(pool, item) < pooled(pool, item).len(),
        pooled(pool, item)[place(pool, item)] == item,
        extends(pool, pooled(pool, item)),
        pool.no_duplicates() ==> pooled(pool, item).no_duplicates(),
        place(pooled(pool, item), item) == place(pool, item),
        pooled(pooled(pool, item), item) == pooled(pool, item),
        item != other ==> place(pool, item) != place(pooled(pool, item), other),
{
    let after = pooled(pool, item);
    if pool.contains(item) {
        let i = choose|i: int| 0 <= i < pool.len() && pool[i] == item;
        lemma_first_exists(pool, item, i);
        assert(first_at(pool, item, place(pool, item)));
    } else {
        assert(first_at(after, item, pool.len() as int));
        lemma_first_at(after, item, pool.len() as int);
        if pool.no_duplicates() {
            assert forall|i: int, j: int|
                0 <= i < after.len() && 0 <= j < after.len() && i != j implies after[i]
                != after[j] by {
                if i == pool.len() {
                    assert(pool.contains(pool[j]));
                } else if j == pool.len() {
                    assert(pool.contains(pool[i]));
                }
            }
        }
    }
    assert(after.take(pool.len() as int) =~= pool);
    if item != other {
        if after.contains(other) {
            let i = choose|i: int| 0 <= i < after.len() && after[i] == other;
            lemma_first_exists(after, other, i);
            assert(first_at(after, other, place(after, other)));
        }
    }
}

/// The string pool and the type pool.
#[verifier::ext_equal]
pub struct Pools {
    /// Interned strings.
    pub strings: Seq<Seq<char>>,
    /// Interned types.
    pub dtypes: Seq<DType>,
}

/// The pools once a name and a type are interned.
pub open spec fn with_pair(p: Pools, pair: (Seq<char>, DType)) -> Pools {
    Pools { strings: pooled(p.strings, pair.0), dtypes: pooled(p.dtypes, pair.1) }
}

/// The positions of a name and a type.
pub open spec fn pair_ids(p: Pools, pair: (Seq<char>, DType)) -> (u32, u32) {
    (place(p.strings, pair.0) as u32, place(p.dtypes, pair.1) as u32)
}

/// The pools once a list of names and types is interned, in order.
pub open spec fn with_pairs(p: Pools, pairs: Seq<(Seq<char>, DType)>) -> Pools
    decreases pairs.len(),
{
    if pairs.len() == 0 {
        p
    } else {
        with_pair(with_pairs(p, pairs.drop_last()), pairs.last())
    }
}

/// The positions of a list of names and types.
pub open spec fn pairs_ids(p: Pools, pairs: Seq<(Seq<char>, DType)>) -> Seq<(u32, u32)>
    decreases pairs.len(),
{
    if pairs.len() == 0 {
        Seq::empty()
    } else {
        pairs_ids(p, pairs.drop_last()).push(
            pair_ids(with_pairs(p, pairs.drop_last()), pairs.last()),
        )
    }
}

/// The pools once the annotations of some arrays are interned, in order.
pub open spec fn with_annotations(
    p: Pools,
    list: Seq<(u32, Seq<(Seq<char>, DType)>)>,
) -> Pools
    decreases list.len(),
{
    if list.len() == 0 {
        p
    } else {
        with_pairs(with_annotations(p, list.drop_last()), list.last().1)
    }
}

/// The positions of the annotations of some arrays.
pub open spec fn annotation_ids(
    p: Pools,
    list: Seq<(u32, Seq<(Seq<char>, DType)>)>,
) -> Seq<(u32, Seq<(u32, u32)>)>
    decreases list.len(),
{
    if list.len() == 0 {
        Seq::empty()
    } else {
        annotation_ids(p, list.drop_last()).push(
            (list.last().0, pairs_ids(with_annotations(p, list.drop_last()), list.last().1)),
        )
    }
}

/// What one dataset declares: arrays, dataset attributes, array attributes.
pub struct Declared {
    /// Array names with their element types.
    pub arrays: Seq<(Seq<char>, DType)>,
    /// Attribute keys with their value types.
    pub attrs: Seq<(Seq<char>, DType)>,
    /// Array positions with their attribute keys and value types.
    pub array_attrs: Seq<(u32, Seq<(Seq<char>, DType)>)>,
}

/// The pools once a dataset's declarations are interned.
pub open spec fn with_declared(p: Pools, d: Declared) -> Pools {
    with_annotations(with_pairs(with_pairs(p, d.arrays), d.attrs), d.array_attrs)
}

/// The schema of a dataset's declarations.
pub open spec fn declared_ids(p: Pools, d: Declared) -> SchemaModel {
    let a = with_pairs(p, d.arrays);
    let b = with_pairs(a, d.attrs);
    SchemaModel {
        arrays: pairs_ids(p, d.arrays),
        attrs: pairs_ids(a, d.attrs),
        array_attrs: annotation_ids(b, d.array_attrs),
    }
}

/// The names and types that pool positions stand for.
pub open spec fn resolved(p: Pools, ids: Seq<(u32, u32)>) -> Seq<(Seq<char>, DType)> {
    Seq::new(ids.len(), |i: int| (p.strings[ids[i].0 as int], p.dtypes[ids[i].1 as int]))
}

/// Every position is inside the pools.
pub open spec fn inside(p: Pools, ids: Seq<(u32, u32)>) -> bool {
    forall|i: int|
        0 <= i < ids.len() ==> (#[trigger] ids[i]).0 < p.strings.len() && ids[i].1 < p.dtypes.len()
}

/// One pool pair is the start of another.
pub open spec fn grown(before: Pools, after: Pools) -> bool {
    extends(before.strings, after.strings) && extends(before.dtypes, after.dtypes)
}

/// The pools hold no more items than positions of 32 bits can name.
pub open spec fn nameable(p: Pools) -> bool {
    p.strings.len() <= 0x1_0000_0000 && p.dtypes.len() <= 0x1_0000_0000
}

proof fn lemma_extends_trans<T>(a: Seq<T>, b: Seq<T>, c: Seq<T>)
    requires
        extends(a, b),
        extends(b, c),
    ensures
        extends(a, c),
{
    assert(c.take(a.len() as int) =~= b.take(a.len() as int));
}

/// What a list of positions stands for stays when the pools grow.
pub proof fn lemma_inside_grown(p: Pools, q: Pools, ids: Seq<(u32, u32)>)
    requires
        inside(p, ids),
        grown(p, q),
    ensures
        inside(q, ids),
        resolved(q, ids) == resolved(p, ids),
{
    assert forall|i: int| 0 <= i < ids.len() implies q.strings[ids[i].0 as int]
        == p.strings[(#[trigger] ids[i]).0 as int] && q.dtypes[ids[i].1 as int]
        == p.dtypes[ids[i].1 as int] by {
        assert(q.strings.take(p.strings.len() as int)[ids[i].0 as int]
            == q.strings[ids[i].0 as int]);
        assert(q.dtypes.take(p.dtypes.len() as int)[ids[i].1 as int]
            == q.dtypes[ids[i].1 as int]);
    }
    assert(resolved(q, ids) =~= resolved(p, ids));
}

/// Interning a list only grows the pools.
pub proof fn lemma_with_pairs_grow(p: Pools, pairs: Seq<(Seq<char>, DType)>)
    ensures
        grown(p, with_pairs(p, pairs)),
        with_pairs(p, pairs).strings.len() <= p.strings.len() + pairs.len(),
        with_pairs(p, pairs).dtypes.len() <= p.dtypes.len() + pairs.len(),
    decreases pairs.len(),
{
    if pairs.len() == 0 {
        assert(p.strings.take(p.strings.len() as int) =~= p.strings);
        assert(p.dtypes.take(p.dtypes.len() as int) =~= p.dtypes);
    } else {
        let mid = with_pairs(p, pairs.drop_last());
        lemma_with_pairs_grow(p, pairs.drop_last());
        law_interning(mid.strings, pairs.last().0, pairs.last().0);
        law_interning(mid.dtypes, pairs.last().1, pairs.last().1);
        lemma_extends_trans(p.strings, mid.strings, with_pairs(p, pairs).strings);
        lemma_extends_trans(p.dtypes, mid.dtypes, with_pairs(p, pairs).dtypes);
    }
}

/// The positions of an interned list stand for the list.
pub proof fn law_pairs_resolve(p: Pools, pairs: Seq<(Seq<char>, DType)>)
    requires
        nameable(with_pairs(p, pairs)),
    ensures
        pairs_ids(p, pairs).len() == pairs.len(),
        inside(with_pairs(p, pairs), pairs_ids(p, pairs)),
        resolved(with_pairs(p, pairs), pairs_ids(p, pairs)) == pairs,
    decreases pairs.len(),
{
    let after = with_pairs(p, pairs);
    let ids = pairs_ids(p, pairs);
    if pairs.len() == 0 {
        assert(resolved(after, ids) =~= pairs);
    } else {
        let front = pairs.drop_last();
        let mid = with_pairs(p, front);
        let pair = pairs.last();
        law_interning(mid.strings, pair.0, pair.0);
        law_interning(mid.dtypes, pair.1, pair.1);
        law_pairs_resolve(p, front);
        lemma_inside_grown(mid, after, ids.drop_last());
        assert(ids.drop_last() =~= pairs_ids(p, front));
        assert forall|i: int| 0 <= i < ids.len() implies (#[trigger] ids[i]).0
            < after.strings.len() && ids[i].1 < after.dtypes.len() && (
        after.strings[ids[i].0 as int], after.dtypes[ids[i].1 as int]) == pairs[i] by {
            if i < ids.len() - 1 {
                assert(ids.drop_last()[i] == ids[i]);
                assert(resolved(after, ids.drop_last())[i] == front[i]);
            }
        }
        assert(resolved(after, ids) =~= pairs);
    }
}

proof fn lemma_with_annotations_grow(p: Pools, list: Seq<(u32, Seq<(Seq<char>, DType)>)>)
    ensures
        grown(p, with_annotations(p, list)),
    decreases list.len(),
{
    if list.len() == 0 {
        lemma_with_pairs_grow(p, Seq::empty());
    } else {
        let mid = with_annotations(p, list.drop_last());
        lemma_with_annotations_grow(p, list.drop_last());
        lemma_with_pairs_grow(mid, list.last().1);
        lemma_extends_trans(p.strings, mid.strings, with_annotations(p, list).strings);
        lemma_extends_trans(p.dtypes, mid.dtypes, with_annotations(p, list).dtypes);
    }
}

proof fn lemma_annotations_resolve(p: Pools, list: Seq<(u32, Seq<(Seq<char>, DType)>)>)
    requires
        nameable(with_annotations(p, list)),
    ensures
        annotation_ids(p, list).len() == list.len(),
        forall|i: int|
            0 <= i < list.len() ==> {
                let ids = #[trigger] annotation_ids(p, list)[i];
                &&& ids.0 == list[i].0
                &&& inside(with_annotations(p, list), ids.1)
                &&& resolved(with_annotations(p, list), ids.1) == list[i].1
            },
    decreases list.len(),
{
    if list.len() > 0 {
        let front = list.drop_last();
        let mid = with_annotations(p, front);
        let after = with_annotations(p, list);
        let ids = annotation_ids(p, list);
        lemma_with_pairs_grow(mid, list.last().1);
        lemma_annotations_resolve(p, front);
        law_pairs_resolve(mid, list.last().1);
        assert forall|i: int| 0 <= i < list.len() implies ({
            let one = #[trigger] ids[i];
            &&& one.0 == list[i].0
            &&& inside(after, one.1)
            &&& resolved(after, one.1) == list[i].1
        }) by {
            if i < list.len() - 1 {
                assert(ids[i] == annotation_ids(p, front)[i]);
                lemma_inside_grown(mid, after, ids[i].1);
                assert(front[i] == list[i]);
            }
        }
    }
}

/// Interning a dataset's declarations gives a schema that stands for them:
/// every position is inside the pools and resolves to the declared name and
/// type, and nothing that was interned before moves.
pub proof fn law_interned_schema_stands_for_its_declarations(p: Pools, d: Declared)
    requires
        nameable(with_declared(p, d)),
    ensures
        grown(p, with_declared(p, d)),
        ({
            let after = with_declared(p, d);
            let schema = declared_ids(p, d);
            &&& inside(after, schema.arrays)
            &&& resolved(after, schema.arrays) == d.arrays
            &&& inside(after, schema.attrs)
            &&& resolved(after, schema.attrs) == d.attrs
            &&& schema.array_attrs.len() == d.array_attrs.len()
            &&& forall|i: int|
                0 <= i < d.array_attrs.len() ==> {
                    let ids = #[trigger] schema.array_attrs[i];
                    &&& ids.0 == d.array_attrs[i].0
                    &&& inside(after, ids.1)
                    &&& resolved(after, ids.1) == d.array_attrs[i].1
                }
        }),
{
    let a = with_pairs(p, d.arrays);
    let b = with_pairs(a, d.attrs);
    let after = with_declared(p, d);
    lemma_with_pairs_grow(p, d.arrays);
    lemma_with_pairs_grow(a, d.attrs);
    lemma_with_annotations_grow(b, d.array_attrs);
    lemma_extends_trans(a.strings, b.strings, after.strings);
    lemma_extends_trans(a.dtypes, b.dtypes, after.dtypes);
    lemma_extends_trans(p.strings, a.strings, after.strings);
    lemma_extends_trans(p.dtypes, a.dtypes, after.dtypes);
    law_pairs_resolve(p, d.arrays);
    law_pairs_resolve(a, d.attrs);
    lemma_annotations_resolve(b, d.array_attrs);
    lemma_inside_grown(a, after, declared_ids(p, d).arrays);
    lemma_inside_grown(b, after, declared_ids(p, d).attrs);
}

/// What a schema declares, with names and types resolved.
pub open spec fn declared_in(p: Pools, s: SchemaModel) -> Declared {
    Declared {
        arrays: resolved(p, s.arrays),
        attrs: resolved(p, s.attrs),
        array_attrs: Seq::new(
            s.array_attrs.len(),
            |i: int| (s.array_attrs[i].0, resolved(p, s.array_attrs[i].1)),
        ),
    }
}

proof fn lemma_grown_trans(a: Pools, b: Pools, c: Pools)
    requires
        grown(a, b),
        grown(b, c),
    ensures
        grown(a, c),
{
    lemma_extends_trans(a.strings, b.strings, c.strings);
    lemma_extends_trans(a.dtypes, b.dtypes, c.dtypes);
}

/// An item of a pool keeps its place when the pool grows, and adds nothing.
proof fn lemma_known_item<T>(before: Seq<T>, after: Seq<T>, item: T)
    requires
        extends(before, after),
        before.contains(item),
    ensures
        place(after, item) == place(before, item),
        pooled(after, item) == after,
{
    let i = choose|i: int| 0 <= i < before.len() && before[i] == item;
    lemma_first_exists(before, item, i);
    let k = place(before, item);
    assert(first_at(before, item, k));
    assert forall|j: int| 0 <= j <= k implies after[j] == before[j] by {
        assert(after.take(before.len() as int)[j] == after[j]);
    }
    assert(first_at(after, item, k));
    lemma_first_at(after, item, k);
}

proof fn lemma_known_pairs(p: Pools, q: Pools, pairs: Seq<(Seq<char>, DType)>)
    requires
        grown(with_pairs(p, pairs), q),
    ensures
        with_pairs(q, pairs) == q,
        pairs_ids(q, pairs) == pairs_ids(p, pairs),
    decreases pairs.len(),
{
    if pairs.len() > 0 {
        let front = pairs.drop_last();
        let pair = pairs.last();
        let mid = with_pairs(p, front);
        let after = with_pairs(p, pairs);
        lemma_with_pairs_grow(mid, seq![pair]);
        assert(seq![pair].drop_last() =~= Seq::empty());
        assert(with_pairs(mid, seq![pair]) == after) by {
            reveal_with_fuel(with_pairs, 2);
        }
        lemma_grown_trans(mid, after, q);
        lemma_known_pairs(p, q, front);
        law_interning(mid.strings, pair.0, pair.0);
        law_interning(mid.dtypes, pair.1, pair.1);
        assert(after.strings.contains(pair.0));
        assert(after.dtypes.contains(pair.1));
        lemma_known_item(after.strings, q.strings, pair.0);
        lemma_known_item(after.dtypes, q.dtypes, pair.1);
    }
}

proof fn lemma_known_annotations(p: Pools, q: Pools, list: Seq<(u32, Seq<(Seq<char>, DType)>)>)
    requires
        grown(with_annotations(p, list), q),
    ensures
        with_annotations(q, list) == q,
        annotation_ids(q, list) == annotation_ids(p, list),
    decreases list.len(),
{
    if list.len() > 0 {
        let front = list.drop_last();
        let mid = with_annotations(p, front);
        lemma_with_pairs_grow(mid, list.last().1);
        lemma_grown_trans(mid, with_annotations(p, list), q);
        lemma_known_annotations(p, q, front);
        lemma_known_pairs(mid, q, list.last().1);
    }
}

proof fn lemma_known_declared(p: Pools, q: Pools, d: Declared)
    requires
        grown(with_declared(p, d), q),
    ensures
        with_declared(q, d) == q,
        declared_ids(q, d) == declared_ids(p, d),
{
    let a = with_pairs(p, d.arrays);
    let b = with_pairs(a, d.attrs);
    lemma_with_pairs_grow(a, d.attrs);
    lemma_with_annotations_grow(b, d.array_attrs);
    lemma_grown_trans(b, with_declared(p, d), q);
    lemma_grown_trans(a, b, q);
    lemma_known_pairs(p, q, d.arrays);
    lemma_known_pairs(a, q, d.attrs);
    lemma_known_annotations(b, q, d.array_attrs);
}

/// An interned schema stands for its declarations in every pool that grew from
/// the one it was interned into.
proof fn lemma_declared_in(p: Pools, q: Pools, d: Declared)
    requires
        nameable(with_declared(p, d)),
        grown(with_declared(p, d), q),
    ensures
        declared_in(q, declared_ids(p, d)) == d,
{
    let after = with_declared(p, d);
    let schema = declared_ids(p, d);
    law_interned_schema_stands_for_its_declarations(p, d);
    lemma_inside_grown(after, q, schema.arrays);
    lemma_inside_grown(after, q, schema.attrs);
    assert forall|i: int| 0 <= i < d.array_attrs.len() implies (
    #[trigger] schema.array_attrs[i].0, resolved(q, schema.array_attrs[i].1)) == d.array_attrs[i] by {
        lemma_inside_grown(after, q, schema.array_attrs[i].1);
    }
    assert(declared_in(q, schema).array_attrs =~= d.array_attrs);
}

/// Every distinct schema interns once. Interning declarations `a`, and later
/// `b`, gives one position exactly where the two declare the same: the same
/// array names with their types, the same attribute keys with their types, and
/// the same annotations, all in order. Whatever was interned in between, in `q`
/// and `t`, does not matter. Declarations that are known add nothing, to no
/// pool.
pub proof fn law_equal_declarations_share_one_schema(
    p: Pools,
    schemas: Seq<SchemaModel>,
    a: Declared,
    q: Pools,
    t: Seq<SchemaModel>,
    b: Declared,
)
    requires
        grown(with_declared(p, a), q),
        extends(pooled(schemas, declared_ids(p, a)), t),
        nameable(with_declared(q, b)),
    ensures
        place(schemas, declared_ids(p, a)) == place(t, declared_ids(q, b)) <==> a == b,
        a == b ==> with_declared(q, b) == q && pooled(t, declared_ids(q, b)) == t,
        grown(q, with_declared(q, b)),
        extends(t, pooled(t, declared_ids(q, b))),
{
    let first = declared_ids(p, a);
    let second = declared_ids(q, b);
    let known = pooled(schemas, first);
    law_interned_schema_stands_for_its_declarations(q, b);
    law_interning(schemas, first, first);
    law_interning(t, second, second);
    assert(known.contains(first));
    lemma_known_item(known, t, first);
    if a == b {
        lemma_known_declared(p, q, a);
    }
    let i = place(schemas, first);
    assert(t.take(known.len() as int)[i] == t[i]);
    if i == place(t, second) {
        assert(t[i] == first);
        assert(pooled(t, second)[i] == second);
        assert(pooled(t, second)[i] == first) by {
            if !t.contains(second) {
                assert(i == t.len());
            }
        }
        let end = with_declared(q, b);
        lemma_grown_trans(with_declared(p, a), q, end);
        lemma_declared_in(p, end, a);
        lemma_with_pairs_grow(end, Seq::empty());
        lemma_declared_in(q, end, b);
    }
}

/// A schema pool holds the schemas of some declarations, one each, in order.
pub open spec fn holds_schemas_of(
    p: Pools,
    schemas: Seq<SchemaModel>,
    seen: Seq<Declared>,
) -> bool {
    &&& schemas.len() == seen.len()
    &&& forall|i: int|
        0 <= i < seen.len() ==> with_declared(p, #[trigger] seen[i]) == p && declared_ids(p, seen[i])
            == schemas[i]
}

/// A schema pool keeps what its schemas stand for when the other pools grow.
pub proof fn lemma_schemas_stay(p: Pools, q: Pools, schemas: Seq<SchemaModel>, seen: Seq<Declared>)
    requires
        holds_schemas_of(p, schemas, seen),
        grown(p, q),
    ensures
        holds_schemas_of(q, schemas, seen),
{
    assert forall|i: int| 0 <= i < seen.len() implies with_declared(q, #[trigger] seen[i]) == q
        && declared_ids(q, seen[i]) == schemas[i] by {
        lemma_known_declared(p, q, seen[i]);
    }
}

/// The schema pool holds one schema for each distinct declaration, in the order
/// in which they were first interned. New declarations get the length of the
/// pool as their position; known ones get the position they had, and add
/// nothing to any pool.
pub proof fn law_schema_positions_follow_the_distinct_declarations(
    p: Pools,
    schemas: Seq<SchemaModel>,
    seen: Seq<Declared>,
    d: Declared,
)
    requires
        holds_schemas_of(p, schemas, seen),
        nameable(with_declared(p, d)),
    ensures
        place(schemas, declared_ids(p, d)) == place(seen, d),
        holds_schemas_of(
            with_declared(p, d),
            pooled(schemas, declared_ids(p, d)),
            pooled(seen, d),
        ),
        !seen.contains(d) ==> place(schemas, declared_ids(p, d)) == schemas.len(),
        seen.contains(d) ==> with_declared(p, d) == p && pooled(schemas, declared_ids(p, d))
            == schemas,
{
    let end = with_declared(p, d);
    let ids = declared_ids(p, d);
    law_interned_schema_stands_for_its_declarations(p, d);
    lemma_with_pairs_grow(end, Seq::empty());
    lemma_declared_in(p, end, d);
    lemma_schemas_stay(p, end, schemas, seen);
    assert forall|i: int| 0 <= i < seen.len() implies (schemas[i] == ids <==> #[trigger] seen[i]
        == d) by {
        lemma_declared_in(end, end, seen[i]);
        lemma_declared_in(p, end, d);
    }
    if seen.contains(d) {
        let k = choose|k: int| 0 <= k < seen.len() && seen[k] == d;
        lemma_first_exists(seen, d, k);
        let i = place(seen, d);
        assert(first_at(seen, d, i));
        assert forall|j: int| 0 <= j < i implies schemas[j] != ids by {
            assert(seen[j] != d);
        }
        assert(first_at(schemas, ids, i));
        lemma_first_at(schemas, ids, i);
    } else {
        assert(!schemas.contains(ids)) by {
            if schemas.contains(ids) {
                let k = choose|k: int| 0 <= k < schemas.len() && schemas[k] == ids;
                assert(seen[k] == d);
            }
        }
        lemma_known_declared(p, end, d);
    }
}

proof fn lemma_take_grows(p: Pools, pairs: Seq<(Seq<char>, DType)>, n: int)
    requires
        0 <= n <= pairs.len(),
    ensures
        grown(with_pairs(p, pairs.take(n)), with_pairs(p, pairs)),
    decreases pairs.len() - n,
{
    if n == pairs.len() {
        assert(pairs.take(n) =~= pairs);
        lemma_with_pairs_grow(with_pairs(p, pairs), Seq::empty());
    } else {
        lemma_take_grows(p, pairs, n + 1);
        let a = with_pairs(p, pairs.take(n));
        let b = with_pairs(p, pairs.take(n + 1));
        assert(pairs.take(n + 1).drop_last() =~= pairs.take(n));
        law_interning(a.strings, pairs[n].0, pairs[n].0);
        law_interning(a.dtypes, pairs[n].1, pairs[n].1);
        lemma_extends_trans(a.strings, b.strings, with_pairs(p, pairs).strings);
        lemma_extends_trans(a.dtypes, b.dtypes, with_pairs(p, pairs).dtypes);
    }
}

proof fn lemma_take_annotations_grows(
    p: Pools,
    list: Seq<(u32, Seq<(Seq<char>, DType)>)>,
    n: int,
)
    requires
        0 <= n <= list.len(),
    ensures
        grown(with_annotations(p, list.take(n)), with_annotations(p, list)),
    decreases list.len() - n,
{
    if n == list.len() {
        assert(list.take(n) =~= list);
        lemma_with_annotations_grow(with_annotations(p, list), Seq::empty());
    } else {
        lemma_take_annotations_grows(p, list, n + 1);
        let a = with_annotations(p, list.take(n));
        let b = with_annotations(p, list.take(n + 1));
        assert(list.take(n + 1).drop_last() =~= list.take(n));
        lemma_with_pairs_grow(a, list[n].1);
        lemma_extends_trans(a.strings, b.strings, with_annotations(p, list).strings);
        lemma_extends_trans(a.dtypes, b.dtypes, with_annotations(p, list).dtypes);
    }
}

/// The keys of some attributes with their value types.
pub open spec fn typed_keys(attrs: Seq<(String, Attr)>) -> Seq<(Seq<char>, DType)> {
    Seq::new(attrs.len(), |i: int| (attrs[i].0@, attr_dtype(attrs[i].1@)))
}

/// The annotated arrays with their attribute keys and value types.
pub open spec fn typed_annotations(list: Seq<(u32, Vec<(String, Attr)>)>) -> Seq<
    (u32, Seq<(Seq<char>, DType)>),
> {
    Seq::new(list.len(), |i: int| (list[i].0, typed_keys(list[i].1@)))
}

impl InternedSchema {
    /// A schema that declares nothing.
    pub fn new() -> (schema: Self)
        ensures
            schema.arrays@.len() == 0,
            schema.attrs@.len() == 0,
            schema.array_attrs@.len() == 0,
    {
        InternedSchema { arrays: Vec::new(), attrs: Vec::new(), array_attrs: Vec::new() }
    }

    /// Whether two schemas declare the same.
    pub fn same(&self, other: &InternedSchema) -> (same: bool)
        ensures
            same == (self@ == other@),
    {
        if !same_pairs(&self.arrays, &other.arrays) || !same_pairs(&self.attrs, &other.attrs) {
            return false;
        }
        if self.array_attrs.len() != other.array_attrs.len() {
            assert(self@.array_attrs.len() != other@.array_attrs.len());
            return false;
        }
        let mut i: usize = 0;
        while i < self.array_attrs.len()
            invariant
                i <= self.array_attrs@.len(),
                self.array_attrs@.len() == other.array_attrs@.len(),
                forall|j: int|
                    0 <= j < i ==> #[trigger] self@.array_attrs[j] == other@.array_attrs[j],
            decreases self.array_attrs@.len() - i,
        {
            assert(self@.array_attrs[i as int] == (
                self.array_attrs@[i as int].0,
                self.array_attrs@[i as int].1@,
            ));
            assert(other@.array_attrs[i as int] == (
                other.array_attrs@[i as int].0,
                other.array_attrs@[i as int].1@,
            ));
            if self.array_attrs[i].0 != other.array_attrs[i].0 || !same_pairs(
                &self.array_attrs[i].1,
                &other.array_attrs[i].1,
            ) {
                return false;
            }
            i += 1;
        }
        assert(self@.array_attrs =~= other@.array_attrs);
        true
    }
}

fn same_pairs(a: &Vec<(u32, u32)>, b: &Vec<(u32, u32)>) -> (same: bool)
    ensures
        same == (a@ == b@),
{
    if a.len() != b.len() {
        return false;
    }
    let mut i: usize = 0;
    while i < a.len()
        invariant
            i <= a@.len(),
            a@.len() == b@.len(),
            forall|j: int| 0 <= j < i ==> a@[j] == b@[j],
        decreases a@.len() - i,
    {
        if a[i].0 != b[i].0 || a[i].1 != b[i].1 {
            return false;
        }
        i += 1;
    }
    assert(a@ =~= b@);
    true
}

/// Interns strings, types, and schemas during a write.
///
/// The writer holds one, and hands out the positions the footer stores.
#[derive(Debug)]
pub struct Interner {
    strings: Table<()>,
    dtypes: Vec<DType>,
    schemas: Vec<InternedSchema>,
}

impl Interner {
    /// The string pool and the type pool.
    pub closed spec fn pools(&self) -> Pools {
        Pools {
            strings: Seq::new(self.strings@.len(), |i: int| self.strings@[i].0),
            dtypes: self.dtypes@,
        }
    }

    /// The schema pool.
    pub closed spec fn schemas(&self) -> Seq<SchemaModel> {
        models(self.schemas@)
    }

    /// An interner with empty pools.
    pub fn new() -> (interner: Self)
        ensures
            interner.pools().strings.len() == 0,
            interner.pools().dtypes.len() == 0,
            interner.schemas().len() == 0,
    {
        Interner { strings: Table::new(), dtypes: Vec::new(), schemas: Vec::new() }
    }

    /// How many strings the pool holds. No string stands in it twice.
    pub fn string_count(&self) -> (n: usize)
        ensures
            n == self.pools().strings.len(),
            self.pools().strings.no_duplicates(),
    {
        self.strings.len()
    }

    /// How many types the pool holds.
    pub fn dtype_count(&self) -> (n: usize)
        ensures
            n == self.pools().dtypes.len(),
    {
        self.dtypes.len()
    }

    /// How many schemas the pool holds.
    pub fn schema_count(&self) -> (n: usize)
        ensures
            n == self.schemas().len(),
    {
        self.schemas.len()
    }

    /// Position of `s` in the string pool. Adds it if it is new.
    pub fn intern_string(&mut self, s: &str) -> (position: u32)
        requires
            pooled(old(self).pools().strings, s@).len() <= 0x1_0000_0000,
        ensures
            final(self).pools().strings == pooled(old(self).pools().strings, s@),
            final(self).pools().dtypes == old(self).pools().dtypes,
            final(self).schemas() == old(self).schemas(),
            position == place(old(self).pools().strings, s@),
    {
        let ghost pool = self.pools().strings;
        match self.strings.position(s) {
            Some(i) => {
                proof {
                    assert(pool[i as int] == s@);
                    assert forall|j: int| 0 <= j < i implies pool[j] != s@ by {
                        assert(self.strings@[j].0 != self.strings@[i as int].0);
                    }
                    lemma_first_at(pool, s@, i as int);
                }
                i as u32
            },
            None => {
                proof {
                    if pool.contains(s@) {
                        let j = choose|j: int| 0 <= j < pool.len() && pool[j] == s@;
                        assert(self.strings@[j].0 == s@);
                    }
                }
                let position: usize = self.strings.len();
                self.strings.insert(s.to_owned(), ());
                assert(self.pools().strings =~= pool.push(s@));
                position as u32
            },
        }
    }

    /// Position of `dtype` in the type pool. Adds it if it is new.
    ///
    /// A scan, because a collection holds a handful of types.
    pub fn intern_dtype(&mut self, dtype: &DType) -> (position: u32)
        requires
            pooled(old(self).pools().dtypes, *dtype).len() <= 0x1_0000_0000,
        ensures
            final(self).pools().dtypes == pooled(old(self).pools().dtypes, *dtype),
            final(self).pools().strings == old(self).pools().strings,
            final(self).schemas() == old(self).schemas(),
            position == place(old(self).pools().dtypes, *dtype),
    {
        let mut i: usize = 0;
        while i < self.dtypes.len()
            invariant
                *self == *old(self),
                i <= self.dtypes@.len(),
                forall|j: int| 0 <= j < i ==> self.dtypes@[j] != *dtype,
                pooled(self.pools().dtypes, *dtype).len() <= 0x1_0000_0000,
            decreases self.dtypes@.len() - i,
        {
            if self.dtypes[i].same(dtype) {
                proof {
                    lemma_first_at(self.dtypes@, *dtype, i as int);
                }
                return i as u32;
            }
            i += 1;
        }
        self.dtypes.push(dtype.clone());
        i as u32
    }

    fn intern_pair(&mut self, key: &str, dtype: &DType) -> (ids: (u32, u32))
        requires
            nameable(with_pair(old(self).pools(), (key@, *dtype))),
        ensures
            final(self).pools() == with_pair(old(self).pools(), (key@, *dtype)),
            final(self).schemas() == old(self).schemas(),
            ids == pair_ids(old(self).pools(), (key@, *dtype)),
    {
        let name: u32 = self.intern_string(key);
        let id: u32 = self.intern_dtype(dtype);
        assert(self.pools() =~= with_pair(old(self).pools(), (key@, *dtype)));
        (name, id)
    }

    fn intern_arrays(&mut self, arrays: &Table<DType>) -> (ids: Vec<(u32, u32)>)
        requires
            nameable(with_pairs(old(self).pools(), arrays@)),
        ensures
            final(self).pools() == with_pairs(old(self).pools(), arrays@),
            final(self).schemas() == old(self).schemas(),
            ids@ == pairs_ids(old(self).pools(), arrays@),
    {
        let ghost start = self.pools();
        let mut ids: Vec<(u32, u32)> = Vec::new();
        let count: usize = arrays.len();
        let mut i: usize = 0;
        while i < count
            invariant
                count == arrays@.len(),
                i <= count,
                start == old(self).pools(),
                nameable(with_pairs(start, arrays@)),
                self.pools() == with_pairs(start, arrays@.take(i as int)),
                self.schemas() == old(self).schemas(),
                ids@ == pairs_ids(start, arrays@.take(i as int)),
            decreases count - i,
        {
            proof {
                lemma_take_grows(start, arrays@, i + 1);
                assert(arrays@.take(i + 1).drop_last() =~= arrays@.take(i as int));
            }
            let pair = self.intern_pair(arrays.name_at(i), arrays.value_at(i));
            ids.push(pair);
            i += 1;
        }
        assert(arrays@.take(i as int) =~= arrays@);
        ids
    }

    fn intern_attrs(&mut self, attrs: &Vec<(String, Attr)>) -> (ids: Vec<(u32, u32)>)
        requires
            nameable(with_pairs(old(self).pools(), typed_keys(attrs@))),
        ensures
            final(self).pools() == with_pairs(old(self).pools(), typed_keys(attrs@)),
            final(self).schemas() == old(self).schemas(),
            ids@ == pairs_ids(old(self).pools(), typed_keys(attrs@)),
    {
        let ghost start = self.pools();
        let ghost keys = typed_keys(attrs@);
        let mut ids: Vec<(u32, u32)> = Vec::new();
        let mut i: usize = 0;
        while i < attrs.len()
            invariant
                keys == typed_keys(attrs@),
                i <= attrs@.len(),
                start == old(self).pools(),
                nameable(with_pairs(start, keys)),
                self.pools() == with_pairs(start, keys.take(i as int)),
                self.schemas() == old(self).schemas(),
                ids@ == pairs_ids(start, keys.take(i as int)),
            decreases attrs@.len() - i,
        {
            proof {
                lemma_take_grows(start, keys, i + 1);
                assert(keys.take(i + 1).drop_last() =~= keys.take(i as int));
            }
            let dtype = attrs[i].1.dtype();
            let pair = self.intern_pair(attrs[i].0.as_str(), &dtype);
            ids.push(pair);
            i += 1;
        }
        assert(keys.take(i as int) =~= keys);
        ids
    }

    /// Position of the schema these declarations describe. Adds it if it is
    /// new.
    ///
    /// `array_attrs` carries the array's position, not its name, because the
    /// caller already holds the arrays in definition order.
    pub fn intern_schema(
        &mut self,
        arrays: &Table<DType>,
        attrs: &Vec<(String, Attr)>,
        array_attrs: &Vec<(u32, Vec<(String, Attr)>)>,
    ) -> (position: u32)
        requires
            nameable(
                with_declared(
                    old(self).pools(),
                    (Declared {
                        arrays: arrays@,
                        attrs: typed_keys(attrs@),
                        array_attrs: typed_annotations(array_attrs@),
                    }),
                ),
            ),
            old(self).schemas().len() < 0x1_0000_0000,
        ensures
            ({
                let declared = Declared {
                    arrays: arrays@,
                    attrs: typed_keys(attrs@),
                    array_attrs: typed_annotations(array_attrs@),
                };
                let schema = declared_ids(old(self).pools(), declared);
                &&& final(self).pools() == with_declared(old(self).pools(), declared)
                &&& final(self).schemas() == pooled(old(self).schemas(), schema)
                &&& position == place(old(self).schemas(), schema)
            }),
    {
        let ghost start = self.pools();
        let ghost a = with_pairs(start, arrays@);
        let ghost b = with_pairs(a, typed_keys(attrs@));
        let ghost list = typed_annotations(array_attrs@);
        proof {
            lemma_with_pairs_grow(a, typed_keys(attrs@));
            lemma_with_annotations_grow(b, list);
        }
        let mut encoded = InternedSchema::new();
        encoded.arrays = self.intern_arrays(arrays);
        encoded.attrs = self.intern_attrs(attrs);
        let mut i: usize = 0;
        assert(list.take(0) =~= Seq::empty());
        assert(annotations(encoded.array_attrs@) =~= Seq::empty());
        while i < array_attrs.len()
            invariant
                i <= array_attrs@.len(),
                list == typed_annotations(array_attrs@),
                nameable(with_annotations(b, list)),
                self.pools() == with_annotations(b, list.take(i as int)),
                self.schemas() == old(self).schemas(),
                encoded.arrays@ == pairs_ids(start, arrays@),
                encoded.attrs@ == pairs_ids(a, typed_keys(attrs@)),
                annotations(encoded.array_attrs@) == annotation_ids(b, list.take(i as int)),
            decreases array_attrs@.len() - i,
        {
            let ghost before = annotations(encoded.array_attrs@);
            proof {
                lemma_take_annotations_grows(b, list, i + 1);
                assert(list.take(i + 1).drop_last() =~= list.take(i as int));
                assert(list[i as int] == (
                    array_attrs@[i as int].0,
                    typed_keys(array_attrs@[i as int].1@),
                ));
            }
            let pairs = self.intern_attrs(&array_attrs[i].1);
            encoded.array_attrs.push((array_attrs[i].0, pairs));
            i += 1;
            assert(annotations(encoded.array_attrs@) =~= before.push(
                (array_attrs@[i - 1].0, pairs@),
            ));
        }
        assert(list.take(i as int) =~= list);
        let ghost schema = encoded@;
        let mut k: usize = 0;
        while k < self.schemas.len()
            invariant
                k <= self.schemas@.len(),
                self.schemas() == old(self).schemas(),
                self.pools() == with_annotations(b, list),
                old(self).schemas().len() < 0x1_0000_0000,
                schema == encoded@,
                schema == declared_ids(
                    start,
                    (Declared { arrays: arrays@, attrs: typed_keys(attrs@), array_attrs: list }),
                ),
                start == old(self).pools(),
                a == with_pairs(start, arrays@),
                b == with_pairs(a, typed_keys(attrs@)),
                list == typed_annotations(array_attrs@),
                forall|j: int| 0 <= j < k ==> self.schemas()[j] != schema,
            decreases self.schemas@.len() - k,
        {
            assert(self.schemas()[k as int] == self.schemas@[k as int]@);
            if self.schemas[k].same(&encoded) {
                proof {
                    lemma_first_at(self.schemas(), schema, k as int);
                }
                return k as u32;
            }
            k += 1;
        }
        assert(self.schemas().len() == k);
        self.schemas.push(encoded);
        assert(self.schemas() =~= old(self).schemas().push(schema));
        k as u32
    }

    /// Consumes the interner into the three pools the footer stores.
    pub fn into_pools(self) -> (pools: (Vec<String>, Vec<DType>, Vec<InternedSchema>))
        ensures
            crate::text::texts(pools.0@) == self.pools().strings,
            pools.1@ == self.pools().dtypes,
            models(pools.2@) == self.schemas(),
    {
        let mut strings: Vec<String> = Vec::new();
        let count: usize = self.strings.len();
        let mut i: usize = 0;
        while i < count
            invariant
                count == self.strings@.len(),
                i <= count,
                strings@.len() == i,
                forall|j: int| 0 <= j < i ==> (#[trigger] strings@[j])@ == self.strings@[j].0,
            decreases count - i,
        {
            strings.push(self.strings.name_at(i).to_owned());
            i += 1;
        }
        assert(crate::text::texts(strings@) =~= self.pools().strings);
        (strings, self.dtypes, self.schemas)
    }
}

} // verus!
