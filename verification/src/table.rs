//! An insertion-ordered map from names to values.
//!
//! The names sit in an [`IndexSet`], which finds a name by hash and keeps the
//! order of insertion. The values sit beside it, at the positions of their
//! names.

use indexmap::IndexSet;
use vstd::prelude::*;

verus! {

/// The insertion-ordered hash set of the `indexmap` crate.
#[verifier::external_type_specification]
#[verifier::external_body]
#[verifier::reject_recursive_types(T)]
#[verifier::reject_recursive_types(S)]
pub struct ExIndexSet<T, S>(indexmap::IndexSet<T, S>);

/// The members of a set of names, in their order.
pub uninterp spec fn names_in(set: IndexSet<String>) -> Seq<Seq<char>>;

/// `IndexSet::new`: a set without members.
#[verifier::external_body]
fn set_new() -> (set: IndexSet<String>)
    ensures
        names_in(set) == Seq::<Seq<char>>::empty(),
{
    IndexSet::new()
}

/// `IndexSet::len`: how many members the set has.
#[verifier::external_body]
fn set_len(set: &IndexSet<String>) -> (len: usize)
    ensures
        len == names_in(*set).len(),
{
    set.len()
}

/// `IndexSet::insert_full`: a new member goes to the end, and a member stays
/// where it is. Returns the position, and whether the name is new.
#[verifier::external_body]
fn set_insert(set: &mut IndexSet<String>, name: String) -> (place: (usize, bool))
    ensures
        names_in(*old(set)).contains(name@) ==> {
            &&& !place.1
            &&& place.0 < names_in(*old(set)).len()
            &&& names_in(*old(set))[place.0 as int] == name@
            &&& names_in(*final(set)) == names_in(*old(set))
        },
        !names_in(*old(set)).contains(name@) ==> {
            &&& place.1
            &&& place.0 == names_in(*old(set)).len()
            &&& names_in(*final(set)) == names_in(*old(set)).push(name@)
        },
{
    set.insert_full(name)
}

/// `IndexSet::get_index_of`: the position of a member.
#[verifier::external_body]
fn set_position(set: &IndexSet<String>, name: &str) -> (place: Option<usize>)
    ensures
        match place {
            Some(i) => i < names_in(*set).len() && names_in(*set)[i as int] == name@,
            None => !names_in(*set).contains(name@),
        },
{
    set.get_index_of(name)
}

/// `IndexSet::get_index`: the member at a position.
#[verifier::external_body]
fn set_name(set: &IndexSet<String>, position: usize) -> (name: Option<&String>)
    ensures
        match name {
            Some(n) => position < names_in(*set).len() && n@ == names_in(*set)[position as int],
            None => position >= names_in(*set).len(),
        },
{
    set.get_index(position)
}

/// `IndexSet::shift_remove_index`: removes the member at a position, and every
/// later member moves up by one.
#[verifier::external_body]
fn set_remove(set: &mut IndexSet<String>, position: usize) -> (removed: Option<String>)
    ensures
        position < names_in(*old(set)).len() ==> {
            &&& names_in(*final(set)) == names_in(*old(set)).remove(position as int)
            &&& removed matches Some(name) && name@ == names_in(*old(set))[position as int]
        },
        position >= names_in(*old(set)).len() ==> {
            &&& names_in(*final(set)) == names_in(*old(set))
            &&& removed is None
        },
{
    set.shift_remove_index(position)
}

/// Whether a name occurs among the entries.
pub open spec fn has_key<V>(entries: Seq<(Seq<char>, V)>, key: Seq<char>) -> bool {
    exists|i: int| 0 <= i < entries.len() && #[trigger] entries[i].0 == key
}

/// A position at which a name occurs.
pub open spec fn key_index<V>(entries: Seq<(Seq<char>, V)>, key: Seq<char>) -> int {
    choose|i: int| 0 <= i < entries.len() && #[trigger] entries[i].0 == key
}

/// The value under a name.
pub open spec fn value_of<V>(entries: Seq<(Seq<char>, V)>, key: Seq<char>) -> Option<V> {
    if has_key(entries, key) {
        Some(entries[key_index(entries, key)].1)
    } else {
        None
    }
}

/// No name occurs twice.
pub open spec fn keys_distinct<V>(entries: Seq<(Seq<char>, V)>) -> bool {
    forall|i: int, j: int|
        0 <= i < j < entries.len() ==> #[trigger] entries[i].0 != #[trigger] entries[j].0
}

/// The entries after a value was set: a known name keeps its place, and a new
/// one goes to the end.
pub open spec fn with_entry<V>(
    entries: Seq<(Seq<char>, V)>,
    key: Seq<char>,
    value: V,
) -> Seq<(Seq<char>, V)> {
    if has_key(entries, key) {
        entries.update(key_index(entries, key), (key, value))
    } else {
        entries.push((key, value))
    }
}

/// The entries after a name was removed: the rest keep their order.
pub open spec fn without_entry<V>(entries: Seq<(Seq<char>, V)>, key: Seq<char>) -> Seq<
    (Seq<char>, V),
> {
    if has_key(entries, key) {
        entries.remove(key_index(entries, key))
    } else {
        entries
    }
}

/// The entries of a table that was filled with some pairs, in order.
pub open spec fn table_of<V>(pairs: Seq<(Seq<char>, V)>) -> Seq<(Seq<char>, V)>
    decreases pairs.len(),
{
    if pairs.len() == 0 {
        Seq::empty()
    } else {
        with_entry(table_of(pairs.drop_last()), pairs.last().0, pairs.last().1)
    }
}

/// Where names are distinct, a name occurs at one position only.
pub proof fn lemma_key_index<V>(entries: Seq<(Seq<char>, V)>, i: int)
    requires
        keys_distinct(entries),
        0 <= i < entries.len(),
    ensures
        has_key(entries, entries[i].0),
        key_index(entries, entries[i].0) == i,
        value_of(entries, entries[i].0) == Some(entries[i].1),
{
    let key = entries[i].0;
    assert(entries[i].0 == key);
    let j = key_index(entries, key);
    assert(0 <= j < entries.len() && entries[j].0 == key);
    if j < i {
        assert(entries[j].0 != entries[i].0);
    } else if i < j {
        assert(entries[i].0 != entries[j].0);
    }
}

/// A table gives back what was last set under a name, and setting one name
/// leaves every other name's value alone.
pub proof fn law_get_after_set<V>(
    entries: Seq<(Seq<char>, V)>,
    key: Seq<char>,
    value: V,
    other: Seq<char>,
)
    requires
        keys_distinct(entries),
    ensures
        keys_distinct(with_entry(entries, key, value)),
        value_of(with_entry(entries, key, value), key) == Some(value),
        other != key ==> value_of(with_entry(entries, key, value), other) == value_of(
            entries,
            other,
        ),
{
    let after = with_entry(entries, key, value);
    let at = if has_key(entries, key) {
        key_index(entries, key)
    } else {
        entries.len() as int
    };
    assert(after[at] == (key, value));
    assert forall|i: int, j: int| 0 <= i < j < after.len() implies #[trigger] after[i].0
        != #[trigger] after[j].0 by {
        if i < entries.len() && j < entries.len() {
            assert(entries[i].0 != entries[j].0);
        } else {
            assert(entries[i].0 == after[i].0);
            assert(!has_key(entries, key));
        }
    }
    lemma_key_index(after, at);
    if other != key {
        if has_key(entries, other) {
            let i = key_index(entries, other);
            assert(entries[i].0 == other);
            assert(after[i] == entries[i]);
            lemma_key_index(after, i);
        } else if has_key(after, other) {
            let i = key_index(after, other);
            assert(after[i].0 == other);
            assert(i != at);
            assert(entries[i].0 == other);
        }
    }
}

/// A removed name is gone, and every other name keeps its value.
pub proof fn law_get_after_remove<V>(
    entries: Seq<(Seq<char>, V)>,
    key: Seq<char>,
    other: Seq<char>,
)
    requires
        keys_distinct(entries),
    ensures
        keys_distinct(without_entry(entries, key)),
        value_of(without_entry(entries, key), key) is None,
        other != key ==> value_of(without_entry(entries, key), other) == value_of(entries, other),
{
    let after = without_entry(entries, key);
    if has_key(entries, key) {
        let at = key_index(entries, key);
        assert(entries[at].0 == key);
        assert forall|i: int| 0 <= i < after.len() implies #[trigger] after[i] == entries[if i < at {
            i
        } else {
            i + 1
        }] by {}
        assert forall|i: int, j: int| 0 <= i < j < after.len() implies #[trigger] after[i].0
            != #[trigger] after[j].0 by {
            let p = if i < at {
                i
            } else {
                i + 1
            };
            let q = if j < at {
                j
            } else {
                j + 1
            };
            assert(entries[p].0 != entries[q].0);
        }
        if has_key(after, key) {
            let i = key_index(after, key);
            let p = if i < at {
                i
            } else {
                i + 1
            };
            assert(after[i].0 == key && entries[p].0 == key);
            lemma_key_index(entries, p);
            lemma_key_index(entries, at);
        }
        if other != key {
            if has_key(entries, other) {
                let p = key_index(entries, other);
                assert(entries[p].0 == other);
                let i = if p < at {
                    p
                } else {
                    p - 1
                };
                assert(after[i] == entries[p]);
                lemma_key_index(after, i);
            } else if has_key(after, other) {
                let i = key_index(after, other);
                assert(after[i].0 == other);
                let p = if i < at {
                    i
                } else {
                    i + 1
                };
                assert(entries[p].0 == other);
            }
        }
    }
}

/// A table filled with pairs of distinct names holds just these pairs.
pub proof fn law_distinct_pairs_fill_a_table<V>(pairs: Seq<(Seq<char>, V)>)
    requires
        keys_distinct(pairs),
    ensures
        table_of(pairs) == pairs,
    decreases pairs.len(),
{
    if pairs.len() > 0 {
        let front = pairs.drop_last();
        assert forall|i: int, j: int| 0 <= i < j < front.len() implies #[trigger] front[i].0
            != #[trigger] front[j].0 by {
            assert(pairs[i].0 != pairs[j].0);
        }
        law_distinct_pairs_fill_a_table(front);
        if has_key(front, pairs.last().0) {
            let i = key_index(front, pairs.last().0);
            assert(front[i].0 == pairs.last().0);
            assert(pairs[i].0 != pairs[pairs.len() - 1].0);
        }
        assert(front.push(pairs.last()) =~= pairs);
    } else {
        assert(table_of(pairs) =~= pairs);
    }
}

/// The entries with each value as its view.
pub open spec fn viewed<V: View>(entries: Seq<(Seq<char>, V)>) -> Seq<(Seq<char>, V::V)> {
    Seq::new(entries.len(), |i: int| (entries[i].0, entries[i].1@))
}

/// Views stand under the same names, at the same places.
pub proof fn lemma_viewed<V: View>(entries: Seq<(Seq<char>, V)>, key: Seq<char>)
    requires
        keys_distinct(entries),
    ensures
        keys_distinct(viewed(entries)),
        has_key(viewed(entries), key) == has_key(entries, key),
        has_key(entries, key) ==> key_index(viewed(entries), key) == key_index(entries, key),
        value_of(entries, key) matches Some(v) ==> value_of(viewed(entries), key) == Some(v@),
        value_of(entries, key) is None ==> value_of(viewed(entries), key) is None,
{
    let inner = viewed(entries);
    assert forall|i: int, j: int| 0 <= i < j < inner.len() implies #[trigger] inner[i].0
        != #[trigger] inner[j].0 by {
        assert(entries[i].0 != entries[j].0);
    }
    if has_key(entries, key) {
        let i = key_index(entries, key);
        assert(entries[i].0 == key);
        assert(inner[i].0 == key);
        lemma_key_index(inner, i);
    } else if has_key(inner, key) {
        let i = key_index(inner, key);
        assert(inner[i].0 == key);
        assert(entries[i].0 == key);
    }
}

/// Setting a value sets its view.
pub proof fn lemma_viewed_with_entry<V: View>(
    entries: Seq<(Seq<char>, V)>,
    key: Seq<char>,
    value: V,
)
    requires
        keys_distinct(entries),
    ensures
        viewed(with_entry(entries, key, value)) == with_entry(viewed(entries), key, value@),
{
    lemma_viewed(entries, key);
    if has_key(entries, key) {
        assert(entries[key_index(entries, key)].0 == key);
    }
    assert(viewed(with_entry(entries, key, value)) =~= with_entry(viewed(entries), key, value@));
}

/// Removing a value removes its view.
pub proof fn lemma_viewed_without_entry<V: View>(entries: Seq<(Seq<char>, V)>, key: Seq<char>)
    requires
        keys_distinct(entries),
    ensures
        viewed(without_entry(entries, key)) == without_entry(viewed(entries), key),
{
    lemma_viewed(entries, key);
    if has_key(entries, key) {
        assert(entries[key_index(entries, key)].0 == key);
    }
    assert(viewed(without_entry(entries, key)) =~= without_entry(viewed(entries), key));
}

/// An insertion-ordered map from names to values. No name occurs twice.
#[derive(Debug)]
pub struct Table<V> {
    names: IndexSet<String>,
    values: Vec<V>,
}

impl<V> View for Table<V> {
    type V = Seq<(Seq<char>, V)>;

    closed spec fn view(&self) -> Seq<(Seq<char>, V)> {
        Seq::new(self.values@.len(), |i: int| (names_in(self.names)[i], self.values@[i]))
    }
}

impl<V> Table<V> {
    #[verifier::type_invariant]
    spec fn well_formed(self) -> bool {
        &&& names_in(self.names).len() == self.values@.len()
        &&& names_in(self.names).no_duplicates()
    }

    /// A table without entries.
    pub fn new() -> (table: Self)
        ensures
            table@ == Seq::<(Seq<char>, V)>::empty(),
    {
        let table = Table { names: set_new(), values: Vec::new() };
        assert(table@ =~= Seq::<(Seq<char>, V)>::empty());
        table
    }

    /// How many entries the table has.
    pub fn len(&self) -> (len: usize)
        ensures
            len == self@.len(),
            keys_distinct(self@),
    {
        proof {
            use_type_invariant(self);
        }
        set_len(&self.names)
    }

    /// Whether the table has no entry.
    pub fn is_empty(&self) -> (empty: bool)
        ensures
            empty == (self@.len() == 0),
    {
        self.len() == 0
    }

    /// The position of a name, in the order of insertion.
    pub fn position(&self, name: &str) -> (place: Option<usize>)
        ensures
            keys_distinct(self@),
            match place {
                Some(i) => {
                    &&& i < self@.len()
                    &&& self@[i as int].0 == name@
                    &&& has_key(self@, name@)
                    &&& key_index(self@, name@) == i
                },
                None => !has_key(self@, name@),
            },
    {
        proof {
            use_type_invariant(self);
        }
        let place = set_position(&self.names, name);
        proof {
            match place {
                Some(i) => {
                    lemma_key_index(self@, i as int);
                },
                None => {
                    if has_key(self@, name@) {
                        let i = key_index(self@, name@);
                        assert(self@[i].0 == name@);
                        assert(names_in(self.names)[i] == name@);
                    }
                },
            }
        }
        place
    }

    /// Whether the table holds a name.
    pub fn contains(&self, name: &str) -> (found: bool)
        ensures
            found == has_key(self@, name@),
    {
        self.position(name).is_some()
    }

    /// The value under a name.
    pub fn get(&self, name: &str) -> (value: Option<&V>)
        ensures
            keys_distinct(self@),
            match value {
                Some(v) => value_of(self@, name@) == Some(*v),
                None => value_of(self@, name@) is None,
            },
    {
        proof {
            use_type_invariant(self);
        }
        match self.position(name) {
            Some(i) => Some(&self.values[i]),
            None => None,
        }
    }

    /// The name at a position.
    pub fn name_at(&self, position: usize) -> (name: &str)
        requires
            position < self@.len(),
        ensures
            name@ == self@[position as int].0,
    {
        proof {
            use_type_invariant(self);
        }
        match set_name(&self.names, position) {
            Some(name) => name.as_str(),
            None => "",
        }
    }

    /// The value at a position.
    pub fn value_at(&self, position: usize) -> (value: &V)
        requires
            position < self@.len(),
        ensures
            *value == self@[position as int].1,
    {
        &self.values[position]
    }

    /// Sets the value under a name, and returns the value it replaces.
    pub fn insert(&mut self, name: String, value: V) -> (replaced: Option<V>)
        ensures
            final(self)@ == with_entry(old(self)@, name@, value),
            replaced == value_of(old(self)@, name@),
            keys_distinct(old(self)@),
            keys_distinct(final(self)@),
    {
        let ghost before = self@;
        let at = self.position(name.as_str());
        let mut whole = Table::new();
        std::mem::swap(self, &mut whole);
        proof {
            use_type_invariant(&whole);
        }
        let Table { mut names, mut values } = whole;
        match at {
            Some(i) => {
                let mut held = value;
                std::mem::swap(&mut values[i], &mut held);
                *self = Table { names, values };
                assert(self@ =~= with_entry(before, name@, value));
                Some(held)
            },
            None => {
                let ghost old_names = names_in(names);
                proof {
                    if old_names.contains(name@) {
                        let i = old_names.index_of(name@);
                        assert(before[i].0 == name@);
                    }
                }
                let ghost text = name@;
                set_insert(&mut names, name);
                values.push(value);
                assert(names_in(names).no_duplicates()) by {
                    assert forall|i: int, j: int|
                        0 <= i < names_in(names).len() && 0 <= j < names_in(names).len() && i
                            != j implies names_in(names)[i] != names_in(names)[j] by {
                        if i == old_names.len() {
                            assert(old_names.contains(old_names[j]));
                        } else if j == old_names.len() {
                            assert(old_names.contains(old_names[i]));
                        }
                    }
                }
                *self = Table { names, values };
                assert(self@ =~= with_entry(before, text, value));
                None
            },
        }
    }

    /// Puts a value at a position, and returns the value it replaces.
    pub fn replace_at(&mut self, position: usize, value: V) -> (replaced: V)
        requires
            position < old(self)@.len(),
        ensures
            final(self)@ == old(self)@.update(
                position as int,
                (old(self)@[position as int].0, value),
            ),
            replaced == old(self)@[position as int].1,
            keys_distinct(final(self)@),
    {
        let ghost before = self@;
        let mut whole = Table::new();
        std::mem::swap(self, &mut whole);
        proof {
            use_type_invariant(&whole);
        }
        let Table { names, mut values } = whole;
        let mut held = value;
        std::mem::swap(&mut values[position], &mut held);
        *self = Table { names, values };
        assert(self@ =~= before.update(position as int, (before[position as int].0, value)));
        held
    }

    /// Removes a name, and returns its value. Later entries move up by one.
    pub fn remove(&mut self, name: &str) -> (removed: Option<V>)
        ensures
            final(self)@ == without_entry(old(self)@, name@),
            removed == value_of(old(self)@, name@),
            keys_distinct(old(self)@),
    {
        let ghost before = self@;
        let at = self.position(name);
        match at {
            Some(i) => {
                let mut whole = Table::new();
                std::mem::swap(self, &mut whole);
                proof {
                    use_type_invariant(&whole);
                }
                let Table { mut names, mut values } = whole;
                let ghost old_names = names_in(names);
                set_remove(&mut names, i);
                let value = values.remove(i);
                assert(names_in(names).no_duplicates()) by {
                    assert forall|p: int, q: int|
                        0 <= p < names_in(names).len() && 0 <= q < names_in(names).len() && p
                            != q implies names_in(names)[p] != names_in(names)[q] by {
                        let a = if p < i {
                            p
                        } else {
                            p + 1
                        };
                        let b = if q < i {
                            q
                        } else {
                            q + 1
                        };
                        assert(names_in(names)[p] == old_names[a]);
                        assert(names_in(names)[q] == old_names[b]);
                    }
                }
                *self = Table { names, values };
                assert(self@ =~= without_entry(before, name@));
                Some(value)
            },
            None => None,
        }
    }
}

/// A name keeps its place when a value is set, and a new one goes to the end.
/// The entry of every other name stays as it is.
pub proof fn law_entries_keep_their_places<V>(
    entries: Seq<(Seq<char>, V)>,
    key: Seq<char>,
    value: V,
    i: int,
)
    requires
        0 <= i < entries.len(),
    ensures
        with_entry(entries, key, value)[i].0 == entries[i].0,
        entries[i].0 != key ==> with_entry(entries, key, value)[i] == entries[i],
        entries[i].0 == key ==> with_entry(entries, key, value).len() == entries.len(),
        (forall|j: int| 0 <= j < entries.len() ==> #[trigger] entries[j].0 != key) ==> with_entry(
            entries,
            key,
            value,
        ) == entries.push((key, value)),
{
    if has_key(entries, key) {
        assert(entries[key_index(entries, key)].0 == key);
    }
}

/// Removing a name leaves every other entry, in their order.
pub proof fn law_removal_keeps_the_order<V>(entries: Seq<(Seq<char>, V)>, key: Seq<char>)
    requires
        keys_distinct(entries),
    ensures
        without_entry(entries, key) == entries.filter(|e: (Seq<char>, V)| e.0 != key),
    decreases entries.len(),
{
    reveal(Seq::filter);
    let wanted = |e: (Seq<char>, V)| e.0 != key;
    if entries.len() > 0 {
        let front = entries.drop_last();
        assert forall|i: int, j: int| 0 <= i < j < front.len() implies #[trigger] front[i].0
            != #[trigger] front[j].0 by {
            assert(entries[i].0 != entries[j].0);
        }
        law_removal_keeps_the_order(front, key);
        let last = entries.last();
        if last.0 == key {
            lemma_key_index(entries, entries.len() - 1);
            if has_key(front, key) {
                let i = key_index(front, key);
                assert(entries[i].0 != entries[entries.len() - 1].0);
            }
            assert(without_entry(entries, key) =~= front);
        } else if has_key(entries, key) {
            let i = key_index(entries, key);
            assert(front[i].0 == key);
            lemma_key_index(front, i);
            assert(without_entry(entries, key) =~= without_entry(front, key).push(last));
        } else {
            if has_key(front, key) {
                assert(entries[key_index(front, key)].0 == key);
            }
            assert(entries =~= front.push(last));
        }
    }
}

/// A table that is filled with pairs has every name once, and under a name the
/// value of the last pair that has it.
pub proof fn law_the_last_pair_of_a_name_counts<V>(pairs: Seq<(Seq<char>, V)>, i: int)
    requires
        0 <= i < pairs.len(),
        forall|j: int| i < j < pairs.len() ==> (#[trigger] pairs[j]).0 != pairs[i].0,
    ensures
        keys_distinct(table_of(pairs)),
        value_of(table_of(pairs), pairs[i].0) == Some(pairs[i].1),
    decreases pairs.len(),
{
    let front = pairs.drop_last();
    let (key, value) = pairs.last();
    lemma_table_has_distinct_names(front);
    law_get_after_set(table_of(front), key, value, pairs[i].0);
    if i < front.len() {
        assert(pairs[pairs.len() - 1].0 != pairs[i].0);
        assert forall|j: int| i < j < front.len() implies (#[trigger] front[j]).0 != front[i].0 by {
            assert(pairs[j].0 != pairs[i].0);
        }
        law_the_last_pair_of_a_name_counts(front, i);
    }
}

/// A table that is filled with pairs holds no name that no pair has.
pub proof fn law_a_table_holds_the_names_of_its_pairs<V>(
    pairs: Seq<(Seq<char>, V)>,
    name: Seq<char>,
)
    ensures
        has_key(table_of(pairs), name) <==> exists|i: int|
            0 <= i < pairs.len() && (#[trigger] pairs[i]).0 == name,
    decreases pairs.len(),
{
    if pairs.len() > 0 {
        let front = pairs.drop_last();
        let (key, value) = pairs.last();
        let (before, after) = (table_of(front), table_of(pairs));
        law_a_table_holds_the_names_of_its_pairs(front, name);
        if has_key(before, key) {
            assert(before[key_index(before, key)].0 == key);
            assert(after[key_index(before, key)].0 == key);
        } else {
            assert(after[before.len() as int].0 == key);
        }
        if has_key(before, name) {
            let i = key_index(before, name);
            assert(after[i].0 == name);
            let k = choose|k: int| 0 <= k < front.len() && (#[trigger] front[k]).0 == name;
            assert(pairs[k].0 == name);
        }
        if has_key(after, name) && name != key {
            let i = key_index(after, name);
            assert(after[i].0 == name);
            assert(before[i].0 == name);
        }
        assert(pairs[pairs.len() - 1].0 == key);
        if exists|i: int| 0 <= i < pairs.len() && (#[trigger] pairs[i]).0 == name {
            let i = choose|i: int| 0 <= i < pairs.len() && (#[trigger] pairs[i]).0 == name;
            if i < front.len() {
                assert(front[i].0 == name);
            }
        }
    }
}

proof fn lemma_table_has_distinct_names<V>(pairs: Seq<(Seq<char>, V)>)
    ensures
        keys_distinct(table_of(pairs)),
    decreases pairs.len(),
{
    if pairs.len() > 0 {
        let front = pairs.drop_last();
        lemma_table_has_distinct_names(front);
        law_get_after_set(table_of(front), pairs.last().0, pairs.last().1, pairs.last().0);
    }
}

} // verus!
