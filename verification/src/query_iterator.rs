//! The rows of a query result: those of one archetype, and those of all
//! matching archetypes one after the other.
use vstd::prelude::*;
use crate::chained_iterator::{chained, ChainedIterator};
use crate::queries::{All, ArchetypeInfo};

verus! {

/// The row `r` of the columns `columns`: for each column its component at
/// `r`, and nothing where there is no column.
pub open spec fn row_of<T>(columns: Seq<Option<&Vec<T>>>, r: int) -> Seq<Option<T>> {
    Seq::new(
        columns.len(),
        |j: int|
            match columns[j] {
                Some(column) => Some(column@[r]),
                None => None,
            },
    )
}

/// The rows of one part of a query result, in storage order.
pub open spec fn rows_of<T>(part: (ArchetypeInfo, Vec<Option<&Vec<T>>>)) -> Seq<Seq<Option<T>>> {
    Seq::new(part.0.entities_spec().len(), |r: int| row_of(part.1@, r))
}

/// The rows of the parts from `from` on: those of one part after those of
/// the part before it.
pub open spec fn chained_rows<T>(borrow: Seq<(ArchetypeInfo, Vec<Option<&Vec<T>>>)>, from: int) -> Seq<
    Seq<Option<T>>,
>
    decreases borrow.len() - from,
{
    if from < 0 || from >= borrow.len() {
        Seq::empty()
    } else {
        rows_of(borrow[from]) + chained_rows(borrow, from + 1)
    }
}

/// What a row of references shows.
pub open spec fn row_view<T>(row: Seq<Option<&T>>) -> Seq<Option<T>> {
    Seq::new(
        row.len(),
        |j: int|
            match row[j] {
                Some(component) => Some(*component),
                None => None,
            },
    )
}

/// What a vector of rows of references shows.
pub open spec fn rows_view<T>(rows: Seq<Vec<Option<&T>>>) -> Seq<Seq<Option<T>>> {
    Seq::new(rows.len(), |r: int| row_view(rows[r]@))
}

/// Access to the rows of the columns that a query found in one archetype.
pub trait GetIteratorsTrait<'a, T>: Sized {
    /// The rows, in storage order.
    spec fn rows_spec(&self) -> Seq<Seq<Option<T>>>;

    /// Every column has one component per row.
    spec fn columns_complete(&self) -> bool;

    /// All rows, in storage order.
    fn get_iterator(&self) -> (rows: Vec<Vec<Option<&'a T>>>)
        requires
            self.columns_complete(),
        ensures
            rows_view(rows@) == self.rows_spec(),
    ;

    /// All rows, in storage order, for a holder of the columns themselves.
    fn get_iterator_mut(&mut self) -> (rows: Vec<Vec<Option<&'a T>>>)
        requires
            old(self).columns_complete(),
        ensures
            *final(self) == *old(self),
            rows_view(rows@) == old(self).rows_spec(),
    ;

    /// The row at `index`.
    fn get_component(&self, index: usize) -> (row: Vec<Option<&'a T>>)
        requires
            self.columns_complete(),
            index < self.rows_spec().len(),
        ensures
            row_view(row@) == self.rows_spec()[index as int],
    ;

    /// The row at `index`, for a holder of the columns themselves.
    fn get_component_mut(&mut self, index: usize) -> (row: Vec<Option<&'a T>>)
        requires
            old(self).columns_complete(),
            index < old(self).rows_spec().len(),
        ensures
            *final(self) == *old(self),
            row_view(row@) == old(self).rows_spec()[index as int],
    ;
}

impl<'a, T> GetIteratorsTrait<'a, T> for (ArchetypeInfo<'a>, Vec<Option<&'a Vec<T>>>) {
    open spec fn rows_spec(&self) -> Seq<Seq<Option<T>>> {
        rows_of(*self)
    }

    open spec fn columns_complete(&self) -> bool {
        crate::queries::part_wf(*self)
    }

    fn get_iterator(&self) -> (rows: Vec<Vec<Option<&'a T>>>) {
        let count = self.0.archetype_entities().len();
        let mut rows: Vec<Vec<Option<&'a T>>> = Vec::new();
        let mut r: usize = 0;
        while r < count
            invariant
                r <= count,
                count == self.0.entities_spec().len(),
                self.columns_complete(),
                rows@.len() == r,
                forall|i: int| 0 <= i < r ==> row_view(#[trigger] rows@[i]@) == row_of(self.1@, i),
            decreases count - r,
        {
            let row = self.get_component(r);
            rows.push(row);
            r += 1;
        }
        assert(rows_view(rows@) =~= self.rows_spec());
        rows
    }

    fn get_iterator_mut(&mut self) -> (rows: Vec<Vec<Option<&'a T>>>) {
        let rows = self.get_iterator();
        rows
    }

    fn get_component(&self, index: usize) -> (row: Vec<Option<&'a T>>) {
        let mut row: Vec<Option<&'a T>> = Vec::new();
        let mut j: usize = 0;
        while j < self.1.len()
            invariant
                j <= self.1@.len(),
                self.columns_complete(),
                index < self.0.entities_spec().len(),
                row@.len() == j,
                forall|i: int| 0 <= i < j ==> row_view(row@)[i] == row_of(self.1@, index as int)[i],
            decreases self.1@.len() - j,
        {
            let ghost before = row@;
            match self.1[j] {
                Some(column) => {
                    assert(column@.len() == self.0.entities_spec().len());
                    row.push(Some(&column[index]));
                },
                None => {
                    row.push(None);
                },
            }
            assert forall|i: int| 0 <= i < j + 1 implies row_view(row@)[i] == row_of(
                self.1@,
                index as int,
            )[i] by {
                if i < j {
                    assert(row@[i] == before[i]);
                    assert(row_view(before)[i] == row_of(self.1@, index as int)[i]);
                }
            }
            j += 1;
        }
        assert(row_view(row@) =~= row_of(self.1@, index as int));
        row
    }

    fn get_component_mut(&mut self, index: usize) -> (row: Vec<Option<&'a T>>) {
        let row = self.get_component(index);
        row
    }
}

/// The columns that the parts of a query result hold for the parameter at
/// `parameter`, in the order of the parts; parts without such a column are
/// passed over.
pub open spec fn present_columns<'a, T>(
    borrow: Seq<(ArchetypeInfo<'a>, Vec<Option<&'a Vec<T>>>)>,
    parameter: int,
) -> Seq<&'a Vec<T>>
    decreases borrow.len(),
{
    if borrow.len() == 0 {
        Seq::empty()
    } else {
        let columns = borrow.last().1@;
        let before = present_columns(borrow.drop_last(), parameter);
        if 0 <= parameter < columns.len() && columns[parameter] is Some {
            before.push(columns[parameter]->0)
        } else {
            before
        }
    }
}

/// An iterator over the components that `borrow` holds for the parameter
/// at `parameter`: those of the first part, then those of the second, and so
/// on.
pub fn chain_column<'a, T>(
    borrow: &Vec<(ArchetypeInfo<'a>, Vec<Option<&'a Vec<T>>>)>,
    parameter: usize,
) -> (chain: ChainedIterator<'a, T>)
    ensures
        chain.wf(),
        chain.remaining() == chained(present_columns(borrow@, parameter as int), 0),
{
    let mut columns: Vec<&'a Vec<T>> = Vec::new();
    let mut k: usize = 0;
    while k < borrow.len()
        invariant
            k <= borrow@.len(),
            columns@ == present_columns(borrow@.subrange(0, k as int), parameter as int),
        decreases borrow@.len() - k,
    {
        assert(borrow@.subrange(0, k + 1).drop_last() =~= borrow@.subrange(0, k as int));
        assert(borrow@.subrange(0, k + 1).last() == borrow@[k as int]);
        if parameter < borrow[k].1.len() {
            match borrow[k].1[parameter] {
                Some(column) => {
                    columns.push(column);
                },
                None => {},
            }
        }
        k += 1;
    }
    assert(borrow@.subrange(0, borrow@.len() as int) =~= borrow@);
    ChainedIterator::new(columns)
}

/// All rows of `borrow`, the rows of one part after those of the part
/// before it.
pub fn collect_rows<'a, T>(borrow: &Vec<(ArchetypeInfo<'a>, Vec<Option<&'a Vec<T>>>)>) -> (rows:
    Vec<Vec<Option<&'a T>>>)
    requires
        crate::queries::borrow_wf(borrow@),
    ensures
        rows_view(rows@) == chained_rows(borrow@, 0),
{
    let mut rows: Vec<Vec<Option<&'a T>>> = Vec::new();
    let mut k: usize = borrow.len();
    while k > 0
        invariant
            k <= borrow@.len(),
            crate::queries::borrow_wf(borrow@),
            rows_view(rows@) == chained_rows(borrow@, k as int),
        decreases k,
    {
        k -= 1;
        let ghost before = rows@;
        assert(crate::queries::part_wf(borrow@[k as int]));
        let mut part_rows = borrow[k].get_iterator();
        let ghost front = part_rows@;
        part_rows.append(&mut rows);
        rows = part_rows;
        assert(rows@ =~= front + before);
        assert(rows_view(rows@) =~= rows_view(front) + rows_view(before));
    }
    rows
}

impl<'a, T> All<'a, T> {
    /// All rows of the result: those of the first matching archetype, then
    /// those of the second, and so on; within an archetype in storage order.
    pub fn iter(&self) -> (rows: Vec<Vec<Option<&'a T>>>)
        ensures
            rows_view(rows@) == chained_rows(self.parts(), 0),
    {
        proof {
            use_type_invariant(self);
        }
        collect_rows(&self.borrow)
    }

    /// All rows of the result, for a holder of the result itself.
    pub fn iter_mut(&mut self) -> (rows: Vec<Vec<Option<&'a T>>>)
        ensures
            *final(self) == *old(self),
            rows_view(rows@) == chained_rows(old(self).parts(), 0),
    {
        let rows = self.iter();
        rows
    }

    /// An iterator over the components of the parameter at `parameter`:
    /// those of the first matching archetype that has a column for it, then
    /// those of the next, and so on.
    pub fn column_iter(&self, parameter: usize) -> (chain: ChainedIterator<'a, T>)
        ensures
            chain.wf(),
            chain.remaining() == chained(present_columns(self.parts(), parameter as int), 0),
    {
        chain_column(&self.borrow, parameter)
    }
}

/// The result of a read query for every matching archetype.
pub struct AllBorrow<'a, T> {
    pub(crate) borrow: Vec<(ArchetypeInfo<'a>, Vec<Option<&'a Vec<T>>>)>,
}

impl<'a, T> AllBorrow<'a, T> {
    /// The parts of the result, one per matching archetype.
    pub open(crate) spec fn parts(&self) -> Seq<(ArchetypeInfo<'a>, Vec<Option<&'a Vec<T>>>)> {
        self.borrow@
    }

    /// Every column of every part has one component per row.
    #[verifier::type_invariant]
    pub open(crate) spec fn complete(&self) -> bool {
        crate::queries::borrow_wf(self.borrow@)
    }

    /// Number of archetypes that matched.
    pub fn archetypes_len(&self) -> (n: usize)
        ensures
            n == self.parts().len(),
    {
        self.borrow.len()
    }

    /// All rows of the result: those of the first matching archetype, then
    /// those of the second, and so on; within an archetype in storage order.
    pub fn iter(&self) -> (rows: Vec<Vec<Option<&'a T>>>)
        ensures
            rows_view(rows@) == chained_rows(self.parts(), 0),
    {
        proof {
            use_type_invariant(self);
        }
        collect_rows(&self.borrow)
    }

    /// All rows of the result, for a holder of the result itself.
    pub fn iter_mut(&mut self) -> (rows: Vec<Vec<Option<&'a T>>>)
        ensures
            *final(self) == *old(self),
            rows_view(rows@) == chained_rows(old(self).parts(), 0),
    {
        let rows = self.iter();
        rows
    }

    /// An iterator over the components of the parameter at `parameter`:
    /// those of the first matching archetype that has a column for it, then
    /// those of the next, and so on.
    pub fn column_iter(&self, parameter: usize) -> (chain: ChainedIterator<'a, T>)
        ensures
            chain.wf(),
            chain.remaining() == chained(present_columns(self.parts(), parameter as int), 0),
    {
        chain_column(&self.borrow, parameter)
    }
}

} // verus!
