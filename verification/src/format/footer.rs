//! The container footer. It holds everything a reader needs before it touches
//! data.
//!
//! One [`CollectionFooter`] sits between the last segment and the trailer. It
//! holds every dataset name, every variable's byte range, and what each
//! dataset declares. An open reads this and nothing else.
//!
//! A dataset is one `u32`: a position in the schema pool. Its name is the key
//! that finds it, and its place among the datasets is its ordinal.

use crate::choice::{either, first, lemma_first, lemma_first_none};
use crate::config::Codec;
use crate::error::{seen, Error, Result};
use crate::format::pool::{models, resolved, Declared, InternedSchema, Pools, SchemaModel};
use crate::format::FORMAT_VERSION;
use crate::schema::dtype::DType;
use crate::table::Table;
use crate::text::{decimal, decimal_text, same_text, texts};
use std::collections::HashSet;
use vstd::prelude::*;

verus! {

broadcast use vstd::std_specs::hash::group_hash_axioms;

/// One variable's segment.
///
/// A segment holds one array name across the whole collection. Inside it, each
/// dataset that declares the array stores it under the dataset's name.
#[derive(Debug, Clone, Copy, PartialEq, Eq)]
pub struct VariableEntry {
    /// Array name, as a `string_pool` position.
    pub name: u32,
    /// Absolute offset of this variable's segment in the container.
    pub seg_offset: u64,
    /// Segment length in bytes.
    pub seg_len: u64,
    /// Absolute offset of the segment's statistics sidecar.
    pub stats_offset: u64,
    /// Sidecar length in bytes. Zero when the segment carries none.
    pub stats_len: u64,
}

/// The complete metadata of one collection.
#[derive(Debug)]
pub struct CollectionFooter {
    /// Footer schema version. It matches the trailer. The check runs again
    /// here, so a truncated read cannot pass as a valid footer.
    pub version: u32,
    /// Footer version of the embedded segments.
    pub segment_format: u32,
    /// Block codec the writer used. For information only.
    pub codec: Codec,
    /// Creation time, milliseconds since the Unix epoch.
    pub created_unix_ms: i64,
    /// Interned strings. Array names and attribute keys share this one pool.
    pub string_pool: Vec<String>,
    /// Interned types, for both array elements and attribute values.
    pub dtype_pool: Vec<DType>,
    /// Interned schemas.
    pub schema_pool: Vec<InternedSchema>,
    /// One segment per distinct array name, in the order the writer first saw
    /// each name.
    pub variables: Vec<VariableEntry>,
    /// The datasets: a name to the schema it declares, in write order. A name
    /// is unique, and its position here is the dataset's ordinal.
    pub datasets: Table<u32>,
}

/// What a footer holds.
#[verifier::ext_equal]
pub struct FooterModel {
    /// Footer schema version.
    pub version: u32,
    /// Footer version of the embedded segments.
    pub segment_format: u32,
    /// Block codec the writer used.
    pub codec: Codec,
    /// Creation time, milliseconds since the Unix epoch.
    pub created_unix_ms: i64,
    /// Interned strings.
    pub strings: Seq<Seq<char>>,
    /// Interned types.
    pub dtypes: Seq<DType>,
    /// Interned schemas.
    pub schemas: Seq<SchemaModel>,
    /// The segments.
    pub variables: Seq<VariableEntry>,
    /// The datasets: name and schema position, by ordinal.
    pub datasets: Seq<(Seq<char>, u32)>,
}

impl View for CollectionFooter {
    type V = FooterModel;

    open spec fn view(&self) -> FooterModel {
        FooterModel {
            version: self.version,
            segment_format: self.segment_format,
            codec: self.codec,
            created_unix_ms: self.created_unix_ms,
            strings: texts(self.string_pool@),
            dtypes: self.dtype_pool@,
            schemas: models(self.schema_pool@),
            variables: self.variables@,
            datasets: self.datasets@,
        }
    }
}

/// Some segment holds the array with this name.
pub open spec fn has_segment(f: FooterModel, name: u32) -> bool {
    exists|j: int| 0 <= j < f.variables.len() && (#[trigger] f.variables[j]).name == name
}

/// What is wrong with a variable.
pub open spec fn variable_fault(f: FooterModel, i: int) -> Option<Seq<char>> {
    let v = f.variables[i];
    if v.name >= f.strings.len() {
        Some(
            "variable "@ + decimal(i as nat) + " names an array "@ + decimal(v.name as nat)
                + " out of "@ + decimal(f.strings.len()) + " strings"@,
        )
    } else if exists|j: int| 0 <= j < i && (#[trigger] f.variables[j]).name == v.name {
        Some(
            "variable '"@ + f.strings[v.name as int] + "' has two segments, the second at "@
                + decimal(i as nat),
        )
    } else if v.seg_len == 0 {
        Some("variable '"@ + f.strings[v.name as int] + "' has an empty segment"@)
    } else {
        None
    }
}

/// What is wrong with a string position a schema refers to.
pub open spec fn string_fault(f: FooterModel, schema: int, idx: u32) -> Option<Seq<char>> {
    if idx >= f.strings.len() {
        Some(
            "schema "@ + decimal(schema as nat) + " references string "@ + decimal(idx as nat)
                + " out of "@ + decimal(f.strings.len()),
        )
    } else {
        None
    }
}

/// What is wrong with a type position a schema refers to.
pub open spec fn dtype_fault(f: FooterModel, schema: int, idx: u32) -> Option<Seq<char>> {
    if idx >= f.dtypes.len() {
        Some(
            "schema "@ + decimal(schema as nat) + " references dtype "@ + decimal(idx as nat)
                + " but the pool holds "@ + decimal(f.dtypes.len()),
        )
    } else {
        None
    }
}

/// What is wrong with an array a schema declares.
pub open spec fn array_fault(f: FooterModel, schema: int, pair: (u32, u32)) -> Option<Seq<char>> {
    if pair.0 >= f.strings.len() {
        Some(
            "schema "@ + decimal(schema as nat) + " names an array "@ + decimal(pair.0 as nat)
                + " out of "@ + decimal(f.strings.len()) + " strings"@,
        )
    } else if !has_segment(f, pair.0) {
        Some(
            "schema "@ + decimal(schema as nat) + " declares array '"@ + f.strings[pair.0 as int]
                + "' but no segment holds it"@,
        )
    } else {
        dtype_fault(f, schema, pair.1)
    }
}

/// What is wrong with an attribute a schema declares.
pub open spec fn attr_fault(f: FooterModel, schema: int, pair: (u32, u32)) -> Option<Seq<char>> {
    either(string_fault(f, schema, pair.0), dtype_fault(f, schema, pair.1))
}

/// What is wrong with some attributes a schema declares.
pub open spec fn attrs_fault(f: FooterModel, schema: int, pairs: Seq<(u32, u32)>) -> Option<
    Seq<char>,
> {
    first(Seq::new(pairs.len(), |k: int| attr_fault(f, schema, pairs[k])))
}

/// What is wrong with the attributes of one array.
pub open spec fn annotation_fault(
    f: FooterModel,
    schema: int,
    annotation: (u32, Seq<(u32, u32)>),
) -> Option<Seq<char>> {
    let declared = f.schemas[schema].arrays.len();
    if annotation.0 >= declared {
        Some(
            "schema "@ + decimal(schema as nat) + " annotates array "@ + decimal(
                annotation.0 as nat,
            ) + " but declares "@ + decimal(declared),
        )
    } else {
        attrs_fault(f, schema, annotation.1)
    }
}

/// What is wrong with a schema: its arrays, then its attributes, then the
/// attributes of its arrays.
pub open spec fn schema_fault(f: FooterModel, i: int) -> Option<Seq<char>> {
    let s = f.schemas[i];
    either(
        first(Seq::new(s.arrays.len(), |k: int| array_fault(f, i, s.arrays[k]))),
        either(
            attrs_fault(f, i, s.attrs),
            first(Seq::new(s.array_attrs.len(), |k: int| annotation_fault(f, i, s.array_attrs[k]))),
        ),
    )
}

/// What is wrong with a dataset.
pub open spec fn dataset_fault(f: FooterModel, i: int) -> Option<Seq<char>> {
    let d = f.datasets[i];
    if d.1 >= f.schemas.len() {
        Some(
            "dataset '"@ + d.0 + "' references schema "@ + decimal(d.1 as nat)
                + " but the pool holds "@ + decimal(f.schemas.len()),
        )
    } else {
        None
    }
}

/// What is wrong with a footer: the first fault of its variables, then of its
/// schemas, then of its datasets.
pub open spec fn footer_fault(f: FooterModel) -> Option<Seq<char>> {
    either(
        first(Seq::new(f.variables.len(), |i: int| variable_fault(f, i))),
        either(
            first(Seq::new(f.schemas.len(), |i: int| schema_fault(f, i))),
            first(Seq::new(f.datasets.len(), |i: int| dataset_fault(f, i))),
        ),
    )
}

/// The verdict on a footer.
pub open spec fn verdict_of(f: FooterModel) -> std::result::Result<(), Error<Seq<char>>> {
    if f.version != FORMAT_VERSION {
        Err(Error::UnsupportedVersion { found: f.version, expected: FORMAT_VERSION })
    } else {
        match footer_fault(f) {
            Some(text) => Err(Error::CorruptCollection(text)),
            None => Ok(()),
        }
    }
}

/// Every position of a list of attributes is inside the pools.
pub open spec fn attrs_resolve(f: FooterModel, pairs: Seq<(u32, u32)>) -> bool {
    forall|k: int|
        0 <= k < pairs.len() ==> (#[trigger] pairs[k]).0 < f.strings.len() && pairs[k].1
            < f.dtypes.len()
}

/// Every position a schema holds is inside its pool, and every array it
/// declares has a segment.
pub open spec fn schema_resolves(f: FooterModel, i: int) -> bool {
    let s = f.schemas[i];
    &&& forall|k: int|
        0 <= k < s.arrays.len() ==> (#[trigger] s.arrays[k]).0 < f.strings.len() && s.arrays[k].1
            < f.dtypes.len() && has_segment(f, s.arrays[k].0)
    &&& attrs_resolve(f, s.attrs)
    &&& forall|k: int|
        0 <= k < s.array_attrs.len() ==> (#[trigger] s.array_attrs[k]).0 < s.arrays.len()
            && attrs_resolve(f, s.array_attrs[k].1)
}

/// A footer that agrees with itself: every position resolves, every variable
/// has one segment with bytes in it, and every declared array has a segment.
pub open spec fn consistent(f: FooterModel) -> bool {
    &&& f.version == FORMAT_VERSION
    &&& forall|i: int|
        0 <= i < f.variables.len() ==> (#[trigger] f.variables[i]).name < f.strings.len()
            && f.variables[i].seg_len > 0
    &&& forall|i: int, j: int|
        0 <= i < j < f.variables.len() ==> (#[trigger] f.variables[i]).name != (
        #[trigger] f.variables[j]).name
    &&& forall|i: int| 0 <= i < f.schemas.len() ==> #[trigger] schema_resolves(f, i)
    &&& forall|i: int| 0 <= i < f.datasets.len() ==> (#[trigger] f.datasets[i]).1 < f.schemas.len()
}

proof fn lemma_attrs_fault(f: FooterModel, schema: int, pairs: Seq<(u32, u32)>)
    ensures
        attrs_fault(f, schema, pairs) is None <==> attrs_resolve(f, pairs),
{
    let list = Seq::new(pairs.len(), |k: int| attr_fault(f, schema, pairs[k]));
    lemma_first_none(list);
    if attrs_fault(f, schema, pairs) is None {
        assert forall|k: int| 0 <= k < pairs.len() implies (#[trigger] pairs[k]).0
            < f.strings.len() && pairs[k].1 < f.dtypes.len() by {
            assert(list[k] is None);
        }
    }
    if attrs_resolve(f, pairs) {
        assert forall|k: int| 0 <= k < list.len() implies list[k] is None by {
            assert(pairs[k].0 < f.strings.len());
        }
    }
}

proof fn lemma_schema_fault(f: FooterModel, i: int)
    ensures
        schema_fault(f, i) is None <==> schema_resolves(f, i),
{
    let s = f.schemas[i];
    let arrays = Seq::new(s.arrays.len(), |k: int| array_fault(f, i, s.arrays[k]));
    let notes = Seq::new(s.array_attrs.len(), |k: int| annotation_fault(f, i, s.array_attrs[k]));
    lemma_first_none(arrays);
    lemma_first_none(notes);
    lemma_attrs_fault(f, i, s.attrs);
    if schema_fault(f, i) is None {
        assert forall|k: int| 0 <= k < s.arrays.len() implies (#[trigger] s.arrays[k]).0
            < f.strings.len() && s.arrays[k].1 < f.dtypes.len() && has_segment(
            f,
            s.arrays[k].0,
        ) by {
            assert(arrays[k] is None);
        }
        assert forall|k: int| 0 <= k < s.array_attrs.len() implies (#[trigger] s.array_attrs[k]).0
            < s.arrays.len() && attrs_resolve(f, s.array_attrs[k].1) by {
            assert(notes[k] is None);
            lemma_attrs_fault(f, i, s.array_attrs[k].1);
        }
    }
    if schema_resolves(f, i) {
        assert forall|k: int| 0 <= k < arrays.len() implies arrays[k] is None by {
            assert(s.arrays[k].0 < f.strings.len());
        }
        assert forall|k: int| 0 <= k < notes.len() implies notes[k] is None by {
            assert(s.array_attrs[k].0 < s.arrays.len());
            lemma_attrs_fault(f, i, s.array_attrs[k].1);
        }
    }
}

/// The check accepts exactly the footers that agree with themselves.
pub proof fn law_accepted_footers_are_the_consistent_ones(f: FooterModel)
    ensures
        verdict_of(f) is Ok <==> consistent(f),
{
    let variables = Seq::new(f.variables.len(), |i: int| variable_fault(f, i));
    let schemas = Seq::new(f.schemas.len(), |i: int| schema_fault(f, i));
    let datasets = Seq::new(f.datasets.len(), |i: int| dataset_fault(f, i));
    lemma_first_none(variables);
    lemma_first_none(schemas);
    lemma_first_none(datasets);
    if verdict_of(f) is Ok {
        assert forall|i: int| 0 <= i < f.variables.len() implies (#[trigger] f.variables[i]).name
            < f.strings.len() && f.variables[i].seg_len > 0 by {
            assert(variables[i] is None);
        }
        assert forall|i: int, j: int| 0 <= i < j < f.variables.len() implies (
        #[trigger] f.variables[i]).name != (#[trigger] f.variables[j]).name by {
            assert(variables[j] is None);
        }
        assert forall|i: int| 0 <= i < f.schemas.len() implies #[trigger] schema_resolves(f, i) by {
            assert(schemas[i] is None);
            lemma_schema_fault(f, i);
        }
        assert forall|i: int| 0 <= i < f.datasets.len() implies (#[trigger] f.datasets[i]).1
            < f.schemas.len() by {
            assert(datasets[i] is None);
        }
    }
    if consistent(f) {
        assert forall|i: int| 0 <= i < variables.len() implies variables[i] is None by {
            assert(f.variables[i].name < f.strings.len());
        }
        assert forall|i: int| 0 <= i < schemas.len() implies schemas[i] is None by {
            assert(schema_resolves(f, i));
            lemma_schema_fault(f, i);
        }
        assert forall|i: int| 0 <= i < datasets.len() implies datasets[i] is None by {
            assert(f.datasets[i].1 < f.schemas.len());
        }
    }
}

/// The string pool and the type pool of a footer.
pub open spec fn pools_of(f: FooterModel) -> Pools {
    Pools { strings: f.strings, dtypes: f.dtypes }
}

/// What the datasets of a schema declare, with names and types resolved.
pub open spec fn declared_by(f: FooterModel, schema: int) -> Declared {
    let s = f.schemas[schema];
    Declared {
        arrays: resolved(pools_of(f), s.arrays),
        attrs: resolved(pools_of(f), s.attrs),
        array_attrs: Seq::new(
            s.array_attrs.len(),
            |i: int| (s.array_attrs[i].0, resolved(pools_of(f), s.array_attrs[i].1)),
        ),
    }
}

/// The characters of an optional text.
pub open spec fn said(text: Option<String>) -> Option<Seq<char>> {
    match text {
        Some(t) => Some(t@),
        None => None,
    }
}

fn put_number(text: &mut String, n: u64)
    ensures
        final(text)@ == old(text)@ + decimal(n as nat),
{
    text.append(decimal_text(n).as_str());
}

impl CollectionFooter {
    fn check_string(&self, schema: usize, idx: u32) -> (fault: Option<String>)
        ensures
            said(fault) == string_fault(self@, schema as int, idx),
    {
        if idx as usize >= self.string_pool.len() {
            let mut text: String = "schema ".to_owned();
            put_number(&mut text, schema as u64);
            text.append(" references string ");
            put_number(&mut text, idx as u64);
            text.append(" out of ");
            put_number(&mut text, self.string_pool.len() as u64);
            return Some(text);
        }
        None
    }

    fn check_dtype(&self, schema: usize, idx: u32) -> (fault: Option<String>)
        ensures
            said(fault) == dtype_fault(self@, schema as int, idx),
    {
        if idx as usize >= self.dtype_pool.len() {
            let mut text: String = "schema ".to_owned();
            put_number(&mut text, schema as u64);
            text.append(" references dtype ");
            put_number(&mut text, idx as u64);
            text.append(" but the pool holds ");
            put_number(&mut text, self.dtype_pool.len() as u64);
            return Some(text);
        }
        None
    }

    fn check_attrs(&self, schema: usize, pairs: &Vec<(u32, u32)>) -> (fault: Option<String>)
        ensures
            said(fault) == attrs_fault(self@, schema as int, pairs@),
    {
        let ghost list = Seq::new(
            pairs@.len(),
            |k: int| attr_fault(self@, schema as int, pairs@[k]),
        );
        let mut k: usize = 0;
        while k < pairs.len()
            invariant
                k <= pairs@.len(),
                list == Seq::new(
                    pairs@.len(),
                    |k: int| attr_fault(self@, schema as int, pairs@[k]),
                ),
                forall|j: int| 0 <= j < k ==> list[j] is None,
            decreases pairs@.len() - k,
        {
            let a = self.check_string(schema, pairs[k].0);
            if a.is_some() {
                proof {
                    lemma_first(list, k as int);
                }
                return a;
            }
            let b = self.check_dtype(schema, pairs[k].1);
            if b.is_some() {
                proof {
                    lemma_first(list, k as int);
                }
                return b;
            }
            k += 1;
        }
        proof {
            lemma_first(list, k as int);
        }
        None
    }

    fn check_variables(&self, names: &mut HashSet<u32>) -> (fault: Option<String>)
        requires
            old(names)@ == Set::<u32>::empty(),
        ensures
            said(fault) == first(
                Seq::new(self@.variables.len(), |i: int| variable_fault(self@, i)),
            ),
            fault is None ==> forall|n: u32|
                #[trigger] final(names)@.contains(n) <==> has_segment(self@, n),
    {
        let ghost list = Seq::new(self@.variables.len(), |i: int| variable_fault(self@, i));
        let mut i: usize = 0;
        while i < self.variables.len()
            invariant
                i <= self.variables@.len(),
                list == Seq::new(self@.variables.len(), |i: int| variable_fault(self@, i)),
                forall|j: int| 0 <= j < i ==> list[j] is None,
                forall|n: u32|
                    #[trigger] names@.contains(n) <==> exists|j: int|
                        0 <= j < i && (#[trigger] self@.variables[j]).name == n,
            decreases self.variables@.len() - i,
        {
            let v: VariableEntry = self.variables[i];
            let at: usize = v.name as usize;
            if at >= self.string_pool.len() {
                let mut text: String = "variable ".to_owned();
                put_number(&mut text, i as u64);
                text.append(" names an array ");
                put_number(&mut text, v.name as u64);
                text.append(" out of ");
                put_number(&mut text, self.string_pool.len() as u64);
                text.append(" strings");
                proof {
                    lemma_first(list, i as int);
                }
                return Some(text);
            }
            let ghost before = names@;
            let fresh = names.insert(v.name);
            if !fresh {
                let mut text: String = "variable '".to_owned();
                text.append(self.string_pool[at].as_str());
                text.append("' has two segments, the second at ");
                put_number(&mut text, i as u64);
                proof {
                    assert(before.contains(v.name));
                    lemma_first(list, i as int);
                }
                return Some(text);
            }
            if v.seg_len == 0 {
                let mut text: String = "variable '".to_owned();
                text.append(self.string_pool[at].as_str());
                text.append("' has an empty segment");
                proof {
                    assert(!before.contains(v.name));
                    lemma_first(list, i as int);
                }
                return Some(text);
            }
            proof {
                assert(!before.contains(v.name));
                assert forall|n: u32| #[trigger]
                    names@.contains(n) <==> exists|j: int|
                        0 <= j < i + 1 && (#[trigger] self@.variables[j]).name == n by {
                    if names@.contains(n) {
                        if n == v.name {
                            assert(self@.variables[i as int].name == n);
                        } else {
                            assert(before.contains(n));
                        }
                    }
                }
            }
            i += 1;
        }
        proof {
            lemma_first(list, i as int);
        }
        None
    }

    fn check_arrays(
        &self,
        schema: usize,
        pairs: &Vec<(u32, u32)>,
        names: &HashSet<u32>,
    ) -> (fault: Option<String>)
        requires
            forall|n: u32| #[trigger] names@.contains(n) <==> has_segment(self@, n),
        ensures
            said(fault) == first(
                Seq::new(pairs@.len(), |k: int| array_fault(self@, schema as int, pairs@[k])),
            ),
    {
        let ghost list = Seq::new(
            pairs@.len(),
            |k: int| array_fault(self@, schema as int, pairs@[k]),
        );
        let mut k: usize = 0;
        while k < pairs.len()
            invariant
                k <= pairs@.len(),
                list == Seq::new(
                    pairs@.len(),
                    |k: int| array_fault(self@, schema as int, pairs@[k]),
                ),
                forall|n: u32| #[trigger] names@.contains(n) <==> has_segment(self@, n),
                forall|j: int| 0 <= j < k ==> list[j] is None,
            decreases pairs@.len() - k,
        {
            let pair: (u32, u32) = pairs[k];
            let at: usize = pair.0 as usize;
            if at >= self.string_pool.len() {
                let mut text: String = "schema ".to_owned();
                put_number(&mut text, schema as u64);
                text.append(" names an array ");
                put_number(&mut text, pair.0 as u64);
                text.append(" out of ");
                put_number(&mut text, self.string_pool.len() as u64);
                text.append(" strings");
                proof {
                    lemma_first(list, k as int);
                }
                return Some(text);
            }
            // A declared array needs a segment to read from.
            if !names.contains(&pair.0) {
                let mut text: String = "schema ".to_owned();
                put_number(&mut text, schema as u64);
                text.append(" declares array '");
                text.append(self.string_pool[at].as_str());
                text.append("' but no segment holds it");
                proof {
                    assert(!has_segment(self@, pair.0));
                    lemma_first(list, k as int);
                }
                return Some(text);
            }
            let fault = self.check_dtype(schema, pair.1);
            if fault.is_some() {
                proof {
                    lemma_first(list, k as int);
                }
                return fault;
            }
            k += 1;
        }
        proof {
            lemma_first(list, k as int);
        }
        None
    }

    fn check_annotations(&self, schema: usize) -> (fault: Option<String>)
        requires
            schema < self.schema_pool@.len(),
        ensures
            said(fault) == first(
                Seq::new(
                    self@.schemas[schema as int].array_attrs.len(),
                    |k: int|
                        annotation_fault(
                            self@,
                            schema as int,
                            self@.schemas[schema as int].array_attrs[k],
                        ),
                ),
            ),
    {
        let ghost model = self@.schemas[schema as int];
        let ghost list = Seq::new(
            model.array_attrs.len(),
            |k: int| annotation_fault(self@, schema as int, model.array_attrs[k]),
        );
        let s = &self.schema_pool[schema];
        let mut k: usize = 0;
        while k < s.array_attrs.len()
            invariant
                k <= s.array_attrs@.len(),
                schema < self.schema_pool@.len(),
                model == self@.schemas[schema as int],
                model == s@,
                list == Seq::new(
                    model.array_attrs.len(),
                    |k: int| annotation_fault(self@, schema as int, model.array_attrs[k]),
                ),
                forall|j: int| 0 <= j < k ==> list[j] is None,
            decreases s.array_attrs@.len() - k,
        {
            let position: u32 = s.array_attrs[k].0;
            if position as usize >= s.arrays.len() {
                let mut text: String = "schema ".to_owned();
                put_number(&mut text, schema as u64);
                text.append(" annotates array ");
                put_number(&mut text, position as u64);
                text.append(" but declares ");
                put_number(&mut text, s.arrays.len() as u64);
                proof {
                    lemma_first(list, k as int);
                }
                return Some(text);
            }
            let fault = self.check_attrs(schema, &s.array_attrs[k].1);
            if fault.is_some() {
                proof {
                    lemma_first(list, k as int);
                }
                return fault;
            }
            k += 1;
        }
        proof {
            lemma_first(list, k as int);
        }
        None
    }

    fn check_schema(&self, i: usize, names: &HashSet<u32>) -> (fault: Option<String>)
        requires
            i < self.schema_pool@.len(),
            forall|n: u32| #[trigger] names@.contains(n) <==> has_segment(self@, n),
        ensures
            said(fault) == schema_fault(self@, i as int),
    {
        let s = &self.schema_pool[i];
        assert(self@.schemas[i as int] == s@);
        let a = self.check_arrays(i, &s.arrays, names);
        if a.is_some() {
            return a;
        }
        let b = self.check_attrs(i, &s.attrs);
        if b.is_some() {
            return b;
        }
        self.check_annotations(i)
    }

    fn check_datasets(&self) -> (fault: Option<String>)
        ensures
            said(fault) == first(
                Seq::new(self@.datasets.len(), |i: int| dataset_fault(self@, i)),
            ),
    {
        let ghost list = Seq::new(self@.datasets.len(), |i: int| dataset_fault(self@, i));
        let count: usize = self.datasets.len();
        let mut i: usize = 0;
        while i < count
            invariant
                i <= count,
                count == self.datasets@.len(),
                list == Seq::new(self@.datasets.len(), |i: int| dataset_fault(self@, i)),
                forall|j: int| 0 <= j < i ==> list[j] is None,
            decreases count - i,
        {
            let schema: u32 = *self.datasets.value_at(i);
            if schema as usize >= self.schema_pool.len() {
                let mut text: String = "dataset '".to_owned();
                text.append(self.datasets.name_at(i));
                text.append("' references schema ");
                put_number(&mut text, schema as u64);
                text.append(" but the pool holds ");
                put_number(&mut text, self.schema_pool.len() as u64);
                proof {
                    lemma_first(list, i as int);
                }
                return Some(text);
            }
            i += 1;
        }
        proof {
            lemma_first(list, i as int);
        }
        None
    }

    /// Rejects a footer whose positions do not resolve, whose variables repeat
    /// or are empty, or whose arrays have no segment. One check here costs less
    /// than a dangling position at every use site.
    ///
    /// The schema pool is checked once, not once per dataset.
    pub fn validate(&self) -> (verdict: Result<()>)
        ensures
            seen(verdict) == verdict_of(self@),
            verdict is Ok <==> consistent(self@),
    {
        proof {
            law_accepted_footers_are_the_consistent_ones(self@);
        }
        if self.version != FORMAT_VERSION {
            return Err(
                Error::UnsupportedVersion { found: self.version, expected: FORMAT_VERSION },
            );
        }
        let mut names: HashSet<u32> = HashSet::new();
        match self.check_variables(&mut names) {
            Some(text) => {
                return Err(Error::CorruptCollection(text));
            },
            None => {},
        }
        let ghost list = Seq::new(self@.schemas.len(), |i: int| schema_fault(self@, i));
        let mut i: usize = 0;
        while i < self.schema_pool.len()
            invariant
                i <= self.schema_pool@.len(),
                self.version == FORMAT_VERSION,
                first(Seq::new(self@.variables.len(), |i: int| variable_fault(self@, i))) is None,
                verdict_of(self@) is Ok <==> consistent(self@),
                list == Seq::new(self@.schemas.len(), |i: int| schema_fault(self@, i)),
                forall|n: u32| #[trigger] names@.contains(n) <==> has_segment(self@, n),
                forall|j: int| 0 <= j < i ==> list[j] is None,
            decreases self.schema_pool@.len() - i,
        {
            match self.check_schema(i, &names) {
                Some(text) => {
                    proof {
                        lemma_first(list, i as int);
                    }
                    return Err(Error::CorruptCollection(text));
                },
                None => {},
            }
            i += 1;
        }
        proof {
            lemma_first(list, i as int);
        }
        match self.check_datasets() {
            Some(text) => Err(Error::CorruptCollection(text)),
            None => Ok(()),
        }
    }
}

/// Two datasets of one name, as the wire form of the datasets could hold them:
/// the first repeated name, with the ordinals of its two datasets.
pub open spec fn repeat_at(pairs: Seq<(Seq<char>, u32)>, second: int) -> Option<Seq<char>> {
    if exists|i: int| 0 <= i < second && (#[trigger] pairs[i]).0 == pairs[second].0 {
        let earlier = choose|i: int| 0 <= i < second && (#[trigger] pairs[i]).0 == pairs[second].0;
        Some(
            "dataset name '"@ + pairs[second].0 + "' appears twice, at ordinal "@ + decimal(
                earlier as nat,
            ) + " and "@ + decimal(second as nat),
        )
    } else {
        None
    }
}

/// What is wrong with a list of datasets.
pub open spec fn repeat_fault(pairs: Seq<(Seq<char>, u32)>) -> Option<Seq<char>> {
    first(Seq::new(pairs.len(), |i: int| repeat_at(pairs, i)))
}

/// The names and schemas of a list of datasets.
pub open spec fn dataset_pairs(pairs: Seq<(String, u32)>) -> Seq<(Seq<char>, u32)> {
    Seq::new(pairs.len(), |i: int| (pairs[i].0@, pairs[i].1))
}

/// Builds the datasets of a footer from their wire form, a sequence of names
/// and schemas. The position of a name is its ordinal.
///
/// A repeated name is corruption: it would collapse two datasets into one and
/// shift every later ordinal, while the deletion mask still named the old ones.
pub fn dataset_table(pairs: &Vec<(String, u32)>) -> (table: Result<Table<u32>>)
    ensures
        match table {
            Ok(t) => repeat_fault(dataset_pairs(pairs@)) is None && t@ == dataset_pairs(pairs@),
            Err(e) => repeat_fault(dataset_pairs(pairs@)) matches Some(text) && e@
                == Error::CorruptCollection(text),
        },
{
    let ghost all = dataset_pairs(pairs@);
    let ghost list = Seq::new(all.len(), |i: int| repeat_at(all, i));
    let mut table: Table<u32> = Table::new();
    let mut i: usize = 0;
    assert(all.take(0) =~= Seq::empty());
    while i < pairs.len()
        invariant
            i <= pairs@.len(),
            all == dataset_pairs(pairs@),
            list == Seq::new(all.len(), |i: int| repeat_at(all, i)),
            table@ == all.take(i as int),
            forall|j: int| 0 <= j < i ==> list[j] is None,
        decreases pairs@.len() - i,
    {
        match table.position(pairs[i].0.as_str()) {
            Some(earlier) => {
                let mut text: String = "dataset name '".to_owned();
                text.append(pairs[i].0.as_str());
                text.append("' appears twice, at ordinal ");
                put_number(&mut text, earlier as u64);
                text.append(" and ");
                put_number(&mut text, i as u64);
                proof {
                    let e = earlier as int;
                    assert(all[e].0 == all[i as int].0);
                    let c = choose|k: int|
                        0 <= k < i && (#[trigger] all[k]).0 == all[i as int].0;
                    assert(table@[c] == all[c]);
                    crate::table::lemma_key_index(table@, c);
                    crate::table::lemma_key_index(table@, e);
                    lemma_first(list, i as int);
                }
                return Err(Error::CorruptCollection(text));
            },
            None => {
                let ghost before = table@;
                table.insert(pairs[i].0.clone(), pairs[i].1);
                proof {
                    assert(table@ =~= all.take(i + 1));
                    assert forall|k: int| 0 <= k < i implies (#[trigger] all[k]).0
                        != all[i as int].0 by {
                        assert(before[k] == all[k]);
                    }
                    assert(list[i as int] is None);
                }
            },
        }
        i += 1;
    }
    proof {
        lemma_first(list, i as int);
        assert(all.take(i as int) =~= all);
    }
    Ok(table)
}

/// The first position of a name among some pairs.
pub open spec fn named_at(pairs: Seq<(u32, u32)>, name: u32, i: int) -> bool {
    &&& 0 <= i < pairs.len()
    &&& pairs[i].0 == name
    &&& forall|j: int| 0 <= j < i ==> (#[trigger] pairs[j]).0 != name
}

/// `found` is the first position of a name among some pairs, where it occurs.
pub open spec fn finds(pairs: Seq<(u32, u32)>, name: u32, found: Option<int>) -> bool {
    match found {
        Some(i) => named_at(pairs, name, i),
        None => forall|j: int| 0 <= j < pairs.len() ==> (#[trigger] pairs[j]).0 != name,
    }
}

/// `found` is the type of the first pair with a name, where it occurs.
pub open spec fn types_as(pairs: Seq<(u32, u32)>, name: u32, found: Option<u32>) -> bool {
    match found {
        Some(d) => exists|k: int| #[trigger] named_at(pairs, name, k) && pairs[k].1 == d,
        None => finds(pairs, name, None),
    }
}

fn find_name(pairs: &Vec<(u32, u32)>, name: u32) -> (found: Option<usize>)
    ensures
        match found {
            Some(i) => finds(pairs@, name, Some(i as int)),
            None => finds(pairs@, name, None),
        },
{
    let mut i: usize = 0;
    while i < pairs.len()
        invariant
            i <= pairs@.len(),
            forall|j: int| 0 <= j < i ==> (#[trigger] pairs@[j]).0 != name,
        decreases pairs@.len() - i,
    {
        if pairs[i].0 == name {
            return Some(i);
        }
        i += 1;
    }
    None
}

impl CollectionFooter {
    /// The interned string at `idx`.
    pub fn string(&self, idx: u32) -> (text: Option<&str>)
        ensures
            match text {
                Some(t) => idx < self@.strings.len() && t@ == self@.strings[idx as int],
                None => idx >= self@.strings.len(),
            },
    {
        let at: usize = idx as usize;
        if at < self.string_pool.len() {
            Some(self.string_pool[at].as_str())
        } else {
            None
        }
    }

    /// Position of `s` in the string pool, if it holds it.
    ///
    /// One call turns a per-dataset string compare into an integer compare. A
    /// name the pool never held cannot occur anywhere in the footer, so a
    /// `None` here answers the whole collection at once.
    pub fn string_id(&self, s: &str) -> (found: Option<u32>)
        requires
            self@.strings.len() <= 0x1_0000_0000,
        ensures
            match found {
                Some(i) => crate::format::pool::first_at(self@.strings, s@, i as int),
                None => !self@.strings.contains(s@),
            },
    {
        let mut i: usize = 0;
        while i < self.string_pool.len()
            invariant
                i <= self.string_pool@.len(),
                self@.strings.len() <= 0x1_0000_0000,
                forall|j: int| 0 <= j < i ==> self@.strings[j] != s@,
            decreases self.string_pool@.len() - i,
        {
            if same_text(self.string_pool[i].as_str(), s) {
                assert(self@.strings[i as int] == s@);
                return Some(i as u32);
            }
            i += 1;
        }
        None
    }

    /// The interned type at `idx`.
    pub fn dtype(&self, idx: u32) -> (d: Option<&DType>)
        ensures
            match d {
                Some(d) => idx < self@.dtypes.len() && *d == self@.dtypes[idx as int],
                None => idx >= self@.dtypes.len(),
            },
    {
        let at: usize = idx as usize;
        if at < self.dtype_pool.len() {
            Some(&self.dtype_pool[at])
        } else {
            None
        }
    }

    /// The schema at `index`.
    pub fn schema_of(&self, index: u32) -> (schema: &InternedSchema)
        requires
            index < self@.schemas.len(),
        ensures
            schema@ == self@.schemas[index as int],
    {
        &self.schema_pool[index as usize]
    }

    /// Which segment holds the array named by `name`, as a
    /// [`variables`](Self::variables) position.
    pub fn variable_index(&self, name: u32) -> (found: Option<usize>)
        ensures
            match found {
                Some(i) => {
                    &&& i < self@.variables.len()
                    &&& self@.variables[i as int].name == name
                    &&& forall|j: int| 0 <= j < i ==> (#[trigger] self@.variables[j]).name != name
                },
                None => !has_segment(self@, name),
            },
    {
        let mut i: usize = 0;
        while i < self.variables.len()
            invariant
                i <= self.variables@.len(),
                forall|j: int| 0 <= j < i ==> (#[trigger] self@.variables[j]).name != name,
            decreases self.variables@.len() - i,
        {
            if self.variables[i].name == name {
                return Some(i);
            }
            i += 1;
        }
        None
    }

    /// Where `array` sits in each interned schema, by pool position.
    ///
    /// `None` when no schema declares the name. Otherwise entry `i` is the
    /// position of `array` in schema `i`, or `None` if that schema omits it.
    /// One pass over the pool answers every dataset.
    pub fn array_positions(&self, array: &str) -> (positions: Option<Vec<Option<u32>>>)
        requires
            self@.strings.len() <= 0x1_0000_0000,
            forall|i: int|
                0 <= i < self@.schemas.len() ==> (#[trigger] self@.schemas[i]).arrays.len()
                    <= 0x1_0000_0000,
        ensures
            match positions {
                Some(list) => {
                    &&& self@.strings.contains(array@)
                    &&& list@.len() == self@.schemas.len()
                    &&& forall|i: int|
                        0 <= i < list@.len() ==> finds(
                            self@.schemas[i].arrays,
                            crate::format::pool::place(self@.strings, array@) as u32,
                            (match #[trigger] list@[i] {
                                Some(p) => Some(p as int),
                                None => None,
                            }),
                        )
                    &&& exists|i: int| 0 <= i < list@.len() && #[trigger] list@[i] is Some
                },
                None => !self@.strings.contains(array@) || forall|i: int|
                    0 <= i < self@.schemas.len() ==> finds(
                        (#[trigger] self@.schemas[i]).arrays,
                        crate::format::pool::place(self@.strings, array@) as u32,
                        None,
                    ),
            },
    {
        match self.string_id(array) {
            None => None,
            Some(wanted) => {
                proof {
                    crate::format::pool::lemma_first_at(self@.strings, array@, wanted as int);
                }
                let mut list: Vec<Option<u32>> = Vec::new();
                let mut declared: bool = false;
                let mut i: usize = 0;
                while i < self.schema_pool.len()
                    invariant
                        i <= self.schema_pool@.len(),
                        list@.len() == i,
                        declared == exists|j: int| 0 <= j < i && #[trigger] list@[j] is Some,
                        forall|i: int|
                            0 <= i < self@.schemas.len() ==> (
                            #[trigger] self@.schemas[i]).arrays.len() <= 0x1_0000_0000,
                        forall|j: int|
                            0 <= j < i ==> finds(
                                self@.schemas[j].arrays,
                                wanted,
                                (match #[trigger] list@[j] {
                                    Some(p) => Some(p as int),
                                    None => None,
                                }),
                            ),
                    decreases self.schema_pool@.len() - i,
                {
                    assert(self@.schemas[i as int] == self.schema_pool@[i as int]@);
                    let found = match find_name(&self.schema_pool[i].arrays, wanted) {
                        Some(p) => Some(p as u32),
                        None => None,
                    };
                    let ghost before = list@;
                    let ghost known = declared;
                    if found.is_some() {
                        declared = true;
                    }
                    list.push(found);
                    proof {
                        if known {
                            let j = choose|j: int| 0 <= j < i && #[trigger] before[j] is Some;
                            assert(list@[j] is Some);
                        }
                        if found is Some {
                            assert(list@[i as int] is Some);
                        }
                        if !declared {
                            assert forall|j: int| 0 <= j <= i implies (
                            #[trigger] list@[j]) is None by {
                                if j < i {
                                    assert(before[j] is None);
                                }
                            }
                        }
                    }
                    i += 1;
                }
                if declared {
                    Some(list)
                } else {
                    assert forall|j: int| 0 <= j < self@.schemas.len() implies finds(
                        (#[trigger] self@.schemas[j]).arrays,
                        wanted,
                        None,
                    ) by {
                        assert(list@[j] is None);
                    }
                    None
                }
            },
        }
    }

    /// The declared type of the dataset-level attribute `key` in each interned
    /// schema, as a type pool position.
    ///
    /// `None` when no schema names the key. Otherwise entry `i` is the type
    /// schema `i` declares for it, or `None` if that schema omits it.
    pub fn attr_dtypes(&self, key: &str) -> (types: Option<Vec<Option<u32>>>)
        requires
            self@.strings.len() <= 0x1_0000_0000,
        ensures
            match types {
                Some(list) => {
                    &&& self@.strings.contains(key@)
                    &&& list@.len() == self@.schemas.len()
                    &&& forall|i: int|
                        0 <= i < list@.len() ==> types_as(
                            self@.schemas[i].attrs,
                            crate::format::pool::place(self@.strings, key@) as u32,
                            #[trigger] list@[i],
                        )
                    &&& exists|i: int| 0 <= i < list@.len() && #[trigger] list@[i] is Some
                },
                None => !self@.strings.contains(key@) || forall|i: int|
                    0 <= i < self@.schemas.len() ==> types_as(
                        (#[trigger] self@.schemas[i]).attrs,
                        crate::format::pool::place(self@.strings, key@) as u32,
                        None,
                    ),
            },
    {
        match self.string_id(key) {
            None => None,
            Some(wanted) => {
                proof {
                    crate::format::pool::lemma_first_at(self@.strings, key@, wanted as int);
                }
                let mut list: Vec<Option<u32>> = Vec::new();
                let mut declared: bool = false;
                let mut i: usize = 0;
                while i < self.schema_pool.len()
                    invariant
                        i <= self.schema_pool@.len(),
                        list@.len() == i,
                        declared == exists|j: int| 0 <= j < i && #[trigger] list@[j] is Some,
                        forall|j: int|
                            0 <= j < i ==> types_as(
                                self@.schemas[j].attrs,
                                wanted,
                                #[trigger] list@[j],
                            ),
                    decreases self.schema_pool@.len() - i,
                {
                    assert(self@.schemas[i as int] == self.schema_pool@[i as int]@);
                    let attrs = &self.schema_pool[i].attrs;
                    let found = match find_name(attrs, wanted) {
                        Some(p) => {
                            assert(named_at(self@.schemas[i as int].attrs, wanted, p as int));
                            Some(attrs[p].1)
                        },
                        None => None,
                    };
                    let ghost before = list@;
                    let ghost known = declared;
                    if found.is_some() {
                        declared = true;
                    }
                    list.push(found);
                    proof {
                        if known {
                            let j = choose|j: int| 0 <= j < i && #[trigger] before[j] is Some;
                            assert(list@[j] is Some);
                        }
                        if found is Some {
                            assert(list@[i as int] is Some);
                        }
                        if !declared {
                            assert forall|j: int| 0 <= j <= i implies (
                            #[trigger] list@[j]) is None by {
                                if j < i {
                                    assert(before[j] is None);
                                }
                            }
                        }
                    }
                    i += 1;
                }
                if declared {
                    Some(list)
                } else {
                    assert forall|j: int| 0 <= j < self@.schemas.len() implies types_as(
                        (#[trigger] self@.schemas[j]).attrs,
                        wanted,
                        None,
                    ) by {
                        assert(list@[j] is None);
                    }
                    None
                }
            },
        }
    }
}

/// What a consistent footer can be relied on for: its version is the one this
/// library reads; every variable has a name, a segment with bytes in it, and no
/// other variable of its name; and every dataset has a schema.
pub proof fn law_consistent_footers_hold_together(f: FooterModel, i: int, j: int)
    requires
        consistent(f),
    ensures
        f.version == FORMAT_VERSION,
        0 <= i < f.variables.len() ==> f.variables[i].name < f.strings.len()
            && f.variables[i].seg_len > 0,
        0 <= i < f.variables.len() && 0 <= j < f.variables.len() && f.variables[i].name
            == f.variables[j].name ==> i == j,
        0 <= i < f.datasets.len() ==> f.datasets[i].1 < f.schemas.len(),
{
    if 0 <= i < f.variables.len() && 0 <= j < f.variables.len() && i < j {
        assert(f.variables[i].name != f.variables[j].name);
    }
    if 0 <= i < f.variables.len() && 0 <= j < f.variables.len() && j < i {
        assert(f.variables[j].name != f.variables[i].name);
    }
}

/// What a schema of a consistent footer can be relied on for: every array and
/// every attribute has a name and a type that are there, every array has a
/// segment of its name, and every annotated array is one of its own.
pub proof fn law_schemas_of_consistent_footers_resolve(f: FooterModel, schema: int, k: int, j: int)
    requires
        consistent(f),
        0 <= schema < f.schemas.len(),
    ensures
        ({
            let s = f.schemas[schema];
            &&& 0 <= k < s.arrays.len() ==> {
                &&& s.arrays[k].0 < f.strings.len()
                &&& s.arrays[k].1 < f.dtypes.len()
                &&& exists|v: int|
                    0 <= v < f.variables.len() && (#[trigger] f.variables[v]).name
                        == s.arrays[k].0
            }
            &&& 0 <= k < s.attrs.len() ==> s.attrs[k].0 < f.strings.len() && s.attrs[k].1
                < f.dtypes.len()
            &&& 0 <= k < s.array_attrs.len() ==> s.array_attrs[k].0 < s.arrays.len()
            &&& 0 <= k < s.array_attrs.len() && 0 <= j < s.array_attrs[k].1.len() ==> {
                &&& s.array_attrs[k].1[j].0 < f.strings.len()
                &&& s.array_attrs[k].1[j].1 < f.dtypes.len()
            }
        }),
{
    assert(schema_resolves(f, schema));
}

/// What a schema declares is what its positions stand for: each array and each
/// attribute has the string and the type at its two positions, in order.
pub proof fn law_positions_stand_for_what_is_declared(f: FooterModel, schema: int, k: int, j: int)
    ensures
        ({
            let s = f.schemas[schema];
            let d = declared_by(f, schema);
            &&& d.arrays.len() == s.arrays.len()
            &&& 0 <= k < s.arrays.len() ==> d.arrays[k] == (
                f.strings[s.arrays[k].0 as int],
                f.dtypes[s.arrays[k].1 as int],
            )
            &&& d.attrs.len() == s.attrs.len()
            &&& 0 <= k < s.attrs.len() ==> d.attrs[k] == (
                f.strings[s.attrs[k].0 as int],
                f.dtypes[s.attrs[k].1 as int],
            )
            &&& d.array_attrs.len() == s.array_attrs.len()
            &&& 0 <= k < s.array_attrs.len() ==> d.array_attrs[k].0 == s.array_attrs[k].0
                && d.array_attrs[k].1.len() == s.array_attrs[k].1.len()
            &&& 0 <= k < s.array_attrs.len() && 0 <= j < s.array_attrs[k].1.len()
                ==> d.array_attrs[k].1[j] == (
                f.strings[s.array_attrs[k].1[j].0 as int],
                f.dtypes[s.array_attrs[k].1[j].1 as int],
            )
        }),
{
}

/// A list of datasets is taken exactly where no name stands twice.
pub proof fn law_repeated_datasets_are_refused(pairs: Seq<(Seq<char>, u32)>)
    ensures
        repeat_fault(pairs) is None <==> forall|i: int, j: int|
            0 <= i < j < pairs.len() ==> (#[trigger] pairs[i]).0 != (#[trigger] pairs[j]).0,
{
    let list = Seq::new(pairs.len(), |i: int| repeat_at(pairs, i));
    lemma_first_none(list);
    if repeat_fault(pairs) is None {
        assert forall|i: int, j: int| 0 <= i < j < pairs.len() implies (#[trigger] pairs[i]).0 != (
        #[trigger] pairs[j]).0 by {
            assert(list[j] is None);
        }
    } else {
        let j = choose|j: int| 0 <= j < list.len() && !(list[j] is None);
        let i = choose|i: int| 0 <= i < j && (#[trigger] pairs[i]).0 == pairs[j].0;
        assert(pairs[i].0 == pairs[j].0);
    }
}

} // verus!
