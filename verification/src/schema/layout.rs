//! [`ArrayLayout`]: where one array's elements sit, read from its segment.

use crate::schema::array::{FillModel, FillValueS};
use crate::text::texts;
use vstd::prelude::*;

verus! {

/// What a segment records of one array's layout.
#[derive(Debug)]
pub struct StoredLayout {
    /// Logical shape, one entry per axis.
    pub shape: Vec<u64>,
    /// On-disk chunk shape.
    pub chunk_shape: Vec<u64>,
    /// Named dimensions, one per axis.
    pub dimension_names: Vec<String>,
    /// Value of the elements nobody wrote.
    pub fill_value: Option<FillValueS>,
}

/// Shape, chunking, dimension names, and fill value of one array.
///
/// The footer holds none of this. The segment that holds the data records it
/// already, so a reader opens that segment to answer.
#[derive(Debug)]
pub struct ArrayLayout {
    shape: Vec<usize>,
    chunk_shape: Vec<usize>,
    dimension_names: Vec<String>,
    fill_value: Option<FillValueS>,
}

/// What a layout says.
pub struct LayoutModel {
    /// Logical shape, one entry per axis.
    pub shape: Seq<usize>,
    /// On-disk chunk shape.
    pub chunk_shape: Seq<usize>,
    /// Named dimensions, one per axis.
    pub dimension_names: Seq<Seq<char>>,
    /// Value of the elements nobody wrote.
    pub fill_value: Option<FillModel>,
}

/// What an optional fill value is.
pub open spec fn fill_model(fill: Option<FillValueS>) -> Option<FillModel> {
    match fill {
        Some(f) => Some(f@),
        None => None,
    }
}

impl View for ArrayLayout {
    type V = LayoutModel;

    closed spec fn view(&self) -> LayoutModel {
        LayoutModel {
            shape: self.shape@,
            chunk_shape: self.chunk_shape@,
            dimension_names: texts(self.dimension_names@),
            fill_value: fill_model(self.fill_value),
        }
    }
}

/// Stored extents as machine sizes.
pub open spec fn extents(list: Seq<u64>) -> Seq<usize> {
    Seq::new(list.len(), |i: int| list[i] as usize)
}

/// The product of some extents.
pub open spec fn product(shape: Seq<usize>) -> nat
    decreases shape.len(),
{
    if shape.len() == 0 {
        1
    } else {
        product(shape.drop_last()) * shape.last() as nat
    }
}

/// The product of the extents fits a machine size, axis by axis.
pub open spec fn countable(shape: Seq<usize>) -> bool {
    forall|n: int| 0 <= n <= shape.len() ==> product(#[trigger] shape.take(n)) <= usize::MAX
}

fn machine_extents(list: &Vec<u64>) -> (out: Vec<usize>)
    ensures
        out@ == extents(list@),
{
    let mut out: Vec<usize> = Vec::new();
    let mut i: usize = 0;
    while i < list.len()
        invariant
            i <= list@.len(),
            out@.len() == i,
            forall|j: int| 0 <= j < i ==> out@[j] == list@[j] as usize,
        decreases list@.len() - i,
    {
        out.push(list[i] as usize);
        i += 1;
    }
    assert(out@ =~= extents(list@));
    out
}

impl ArrayLayout {
    /// Takes over the layout a segment recorded for one array.
    pub fn from_stored(stored: StoredLayout) -> (layout: Self)
        ensures
            layout@.shape == extents(stored.shape@),
            layout@.chunk_shape == extents(stored.chunk_shape@),
            layout@.dimension_names == texts(stored.dimension_names@),
            layout@.fill_value == fill_model(stored.fill_value),
    {
        ArrayLayout {
            shape: machine_extents(&stored.shape),
            chunk_shape: machine_extents(&stored.chunk_shape),
            dimension_names: stored.dimension_names,
            fill_value: stored.fill_value,
        }
    }

    /// Logical shape, one entry per axis.
    pub fn shape(&self) -> (shape: &[usize])
        ensures
            shape@ == self@.shape,
    {
        self.shape.as_slice()
    }

    /// On-disk chunk shape, same rank as [`shape`](Self::shape). Equal to
    /// `shape` when the array is stored as one chunk.
    pub fn chunk_shape(&self) -> (shape: &[usize])
        ensures
            shape@ == self@.chunk_shape,
    {
        self.chunk_shape.as_slice()
    }

    /// Named dimensions, one per axis, in the order of
    /// [`shape`](Self::shape).
    pub fn dimension_names(&self) -> (names: Vec<&str>)
        ensures
            crate::schema::view::borrowed(names@) == self@.dimension_names,
    {
        let mut names: Vec<&str> = Vec::new();
        let mut i: usize = 0;
        while i < self.dimension_names.len()
            invariant
                i <= self.dimension_names@.len(),
                names@.len() == i,
                forall|j: int| 0 <= j < i ==> (#[trigger] names@[j])@ == self.dimension_names@[j]@,
            decreases self.dimension_names@.len() - i,
        {
            names.push(self.dimension_names[i].as_str());
            i += 1;
        }
        assert(crate::schema::view::borrowed(names@) =~= self@.dimension_names);
        names
    }

    /// Value a read returns for an element nobody wrote. `None` when the
    /// array has no fill value.
    pub fn fill_value(&self) -> (fill: Option<&FillValueS>)
        ensures
            match fill {
                Some(f) => self@.fill_value == Some(f@),
                None => self@.fill_value is None,
            },
    {
        self.fill_value.as_ref()
    }

    /// How many elements the array holds across every axis.
    pub fn element_count(&self) -> (count: usize)
        requires
            countable(self@.shape),
        ensures
            count == product(self@.shape),
    {
        let mut count: usize = 1;
        let mut i: usize = 0;
        assert(self.shape@.take(0) =~= Seq::empty());
        while i < self.shape.len()
            invariant
                i <= self.shape@.len(),
                countable(self.shape@),
                count == product(self.shape@.take(i as int)),
            decreases self.shape@.len() - i,
        {
            let ghost next = self.shape@.take(i + 1);
            assert(next.drop_last() =~= self.shape@.take(i as int));
            assert(next.last() == self.shape@[i as int]);
            assert(product(next) <= usize::MAX);
            assert(product(next) == count * self.shape@[i as int]);
            count = count * self.shape[i];
            i += 1;
        }
        assert(self.shape@.take(i as int) =~= self.shape@);
        count
    }
}

/// The number of elements is the extents multiplied together: a single axis
/// has as many elements as its extent, no axis leaves one element, and axes
/// that are put behind others multiply with them.
pub proof fn law_elements_multiply_over_the_axes(front: Seq<usize>, back: Seq<usize>, extent: usize)
    ensures
        product(Seq::empty()) == 1,
        product(seq![extent]) == extent,
        product(front + back) == product(front) * product(back),
        back.contains(0usize) ==> product(front + back) == 0,
    decreases back.len(),
{
    let one = seq![extent];
    assert(one.drop_last() =~= Seq::<usize>::empty());
    assert(product(one.drop_last()) == 1);
    let all = front + back;
    if back.len() == 0 {
        assert(all =~= front);
        let (a, b) = (product(front), product(back));
        assert(a * b == a) by (nonlinear_arith)
            requires
                b == 1,
        ;
    } else {
        let rest = back.drop_last();
        law_elements_multiply_over_the_axes(front, rest, extent);
        assert(all.drop_last() =~= front + rest);
        let (a, b, c) = (product(front), product(rest), back.last() as nat);
        assert((a * b) * c == a * (b * c)) by (nonlinear_arith);
        let before = product(front + rest);
        assert(product(all) == before * c);
        assert(before == 0 || c == 0 ==> before * c == 0) by (nonlinear_arith);
        if back.contains(0usize) {
            let i = choose|i: int| 0 <= i < back.len() && back[i] == 0usize;
            if i < rest.len() {
                assert(rest[i] == 0usize);
            } else {
                assert(c == 0);
            }
        }
    }
}

/// An extent that fits a machine size is taken as it was stored, at its axis.
pub proof fn law_extents_are_taken_as_stored(list: Seq<u64>, axis: int)
    requires
        0 <= axis < list.len(),
        list[axis] <= usize::MAX,
    ensures
        extents(list).len() == list.len(),
        extents(list)[axis] == list[axis],
{
}

} // verus!
