//! The matrix of a tally: a row of counts for each instant at which a count
//! changed.

use crate::timestamp::DateTime;
use vstd::prelude::*;

verus! {

/// The counts of one instant, one for each query.
#[derive(Debug)]
pub struct Row {
    values: Vec<u32>,
}

impl View for Row {
    type V = Seq<u32>;

    closed spec fn view(&self) -> Seq<u32> {
        self.values@
    }
}

impl Row {
    pub fn new(values: Vec<u32>) -> (row: Row)
        ensures
            row@ == values@,
    {
        Row { values }
    }

    pub fn len(&self) -> (n: usize)
        ensures
            n == self@.len(),
    {
        self.values.len()
    }

    /// The count of query `i`.
    pub fn index(&self, i: usize) -> (value: u32)
        requires
            i < self@.len(),
        ensures
            value == self@[i as int],
    {
        self.values[i]
    }

    /// The counts, in the order of the queries.
    pub fn values(&self) -> (values: &[u32])
        ensures
            values@ == self@,
    {
        self.values.as_slice()
    }

    /// The row as a share of `total`.
    pub fn div(&self, total: u32) -> (relative: RelativeRow<'_>)
        ensures
            relative.row()@ == self@,
            relative.total() == total,
    {
        RelativeRow { row: self, total }
    }
}

/// A row together with the number that its counts are a share of.
pub struct RelativeRow<'a> {
    row: &'a Row,
    total: u32,
}

impl<'a> RelativeRow<'a> {
    pub closed spec fn row(&self) -> &Row {
        self.row
    }

    pub closed spec fn total(&self) -> u32 {
        self.total
    }

    /// Numerator and denominator of cell `i`.
    pub fn fraction(&self, i: usize) -> (cell: (u32, u32))
        requires
            i < self.row()@.len(),
        ensures
            cell == (self.row()@[i as int], self.total()),
    {
        (self.row.index(i), self.total)
    }

    pub fn width(&self) -> (n: usize)
        ensures
            n == self.row()@.len(),
    {
        self.row.len()
    }
}

/// The result of a tally: rows of counts at the instants where a count
/// changed, each as wide as there are queries.
pub struct Matrix {
    queries: usize,
    rows: Vec<(DateTime, Row)>,
}

/// The rows as values.
pub open spec fn row_views(rows: Seq<(DateTime, Row)>) -> Seq<(DateTime, Seq<u32>)> {
    Seq::new(rows.len(), |i: int| (rows[i].0, rows[i].1@))
}

impl View for Matrix {
    type V = Seq<(DateTime, Seq<u32>)>;

    closed spec fn view(&self) -> Seq<(DateTime, Seq<u32>)> {
        row_views(self.rows@)
    }
}

impl Matrix {
    pub closed spec fn spec_width(&self) -> usize {
        self.queries
    }

    /// A matrix without rows for `queries` queries.
    pub fn new(queries: usize) -> (matrix: Matrix)
        ensures
            matrix@.len() == 0,
            matrix.spec_width() == queries,
    {
        let matrix = Matrix { queries, rows: Vec::new() };
        assert(matrix@ =~= Seq::empty());
        matrix
    }

    /// The number of queries.
    #[verifier::when_used_as_spec(spec_width)]
    pub fn width(&self) -> (n: usize)
        ensures
            n == self.spec_width(),
    {
        self.queries
    }

    pub fn is_empty(&self) -> (b: bool)
        ensures
            b == (self@.len() == 0),
    {
        self.rows.len() == 0
    }

    /// The number of rows.
    pub fn len(&self) -> (n: usize)
        ensures
            n == self@.len(),
    {
        self.rows.len()
    }

    /// Walks the rows, from either end.
    pub fn iter(&self) -> (it: Iter<'_>)
        ensures
            it@ == self@,
    {
        let it = Iter { matrix: self, front: 0, back: self.rows.len() };
        assert(it@ =~= self@);
        it
    }

    /// The row at `index` with its instant.
    pub fn row(&self, index: usize) -> (row: (DateTime, &Row))
        requires
            index < self@.len(),
        ensures
            (row.0, row.1@) == self@[index as int],
    {
        (self.rows[index].0, &self.rows[index].1)
    }

    /// Appends a row.
    pub fn push(&mut self, timestamp: DateTime, data: Vec<u32>)
        ensures
            final(self)@ == old(self)@.push((timestamp, data@)),
            final(self).spec_width() == old(self).spec_width(),
    {
        self.rows.push((timestamp, Row::new(data)));
        assert(self@ =~= old(self)@.push((timestamp, data@)));
    }
}

/// Walks the rows of a matrix; its view is what is still to come.
pub struct Iter<'a> {
    matrix: &'a Matrix,
    front: usize,
    back: usize,
}

impl<'a> View for Iter<'a> {
    type V = Seq<(DateTime, Seq<u32>)>;

    closed spec fn view(&self) -> Seq<(DateTime, Seq<u32>)> {
        self.matrix@.subrange(self.front as int, self.back as int)
    }
}

impl<'a> Iter<'a> {
    #[verifier::type_invariant]
    closed spec fn inv(&self) -> bool {
        self.front <= self.back <= self.matrix.rows@.len()
    }

    /// The first of the rows to come.
    pub fn next(&mut self) -> (item: Option<(DateTime, &'a Row)>)
        ensures
            old(self)@.len() == 0 ==> item is None && final(self)@ == old(self)@,
            old(self)@.len() > 0 ==> item is Some && (item.unwrap().0, item.unwrap().1@) == old(self)@[0]
                && final(self)@ == old(self)@.skip(1),
    {
        proof {
            use_type_invariant(&*self);
        }
        if self.front < self.back {
            let entry = &self.matrix.rows[self.front];
            self.front = self.front + 1;
            proof {
                assert(self@ =~= old(self)@.skip(1));
            }
            Some((entry.0, &entry.1))
        } else {
            None
        }
    }

    /// The last of the rows to come.
    pub fn next_back(&mut self) -> (item: Option<(DateTime, &'a Row)>)
        ensures
            old(self)@.len() == 0 ==> item is None && final(self)@ == old(self)@,
            old(self)@.len() > 0 ==> item is Some && (item.unwrap().0, item.unwrap().1@) == old(self)@.last()
                && final(self)@ == old(self)@.drop_last(),
    {
        proof {
            use_type_invariant(&*self);
        }
        if self.front < self.back {
            self.back = self.back - 1;
            let entry = &self.matrix.rows[self.back];
            proof {
                assert(self@ =~= old(self)@.drop_last());
            }
            Some((entry.0, &entry.1))
        } else {
            None
        }
    }
}

} // verus!
