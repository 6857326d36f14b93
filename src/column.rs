//! Per-column containers of a batch: raw datums whose decoding is left to a
//! later stage, or integers decoded at once.

use vstd::prelude::*;

verus! {

/// What a column of a batch holds.
pub enum ColumnView {
    Raw(Seq<Seq<u8>>),
    Decoded(Seq<Option<i64>>),
}

/// One column of a batch.
pub enum LazyBatchColumn {
    /// One undecoded datum per row.
    Raw(Vec<Vec<u8>>),
    /// One decoded integer (or null) per row.
    Decoded(Vec<Option<i64>>),
}

/// The byte strings held by a vector of vectors.
pub open spec fn bytes_seq(v: Seq<Vec<u8>>) -> Seq<Seq<u8>> {
    Seq::new(v.len(), |k: int| v[k]@)
}

impl View for LazyBatchColumn {
    type V = ColumnView;

    open spec fn view(&self) -> ColumnView {
        match self {
            LazyBatchColumn::Raw(v) => ColumnView::Raw(bytes_seq(v@)),
            LazyBatchColumn::Decoded(v) => ColumnView::Decoded(v@),
        }
    }
}

/// Number of rows of a column.
pub open spec fn column_len(c: ColumnView) -> nat {
    match c {
        ColumnView::Raw(v) => v.len(),
        ColumnView::Decoded(v) => v.len(),
    }
}

impl LazyBatchColumn {
    pub fn is_raw(&self) -> (r: bool)
        ensures
            r == self@ is Raw,
    {
        match self {
            LazyBatchColumn::Raw(_) => true,
            LazyBatchColumn::Decoded(_) => false,
        }
    }

    pub fn is_decoded(&self) -> (r: bool)
        ensures
            r == self@ is Decoded,
    {
        !self.is_raw()
    }

    /// Number of rows.
    pub fn len(&self) -> (r: usize)
        ensures
            r == column_len(self@),
    {
        match self {
            LazyBatchColumn::Raw(v) => v.len(),
            LazyBatchColumn::Decoded(v) => v.len(),
        }
    }

    /// The undecoded datums of a raw column.
    pub fn raw(&self) -> (r: &Vec<Vec<u8>>)
        requires
            self@ is Raw,
        ensures
            self@ == ColumnView::Raw(bytes_seq(r@)),
    {
        match self {
            LazyBatchColumn::Raw(v) => v,
            LazyBatchColumn::Decoded(_) => {
                vstd::pervasive::unreached()
            },
        }
    }

    /// The integers of a decoded column.
    pub fn decoded(&self) -> (r: &Vec<Option<i64>>)
        requires
            self@ is Decoded,
        ensures
            self@ == ColumnView::Decoded(r@),
    {
        match self {
            LazyBatchColumn::Decoded(v) => v,
            LazyBatchColumn::Raw(_) => {
                vstd::pervasive::unreached()
            },
        }
    }
}

/// The columns of a batch, in schema order.
pub struct LazyBatchColumnVec {
    pub columns: Vec<LazyBatchColumn>,
}

impl View for LazyBatchColumnVec {
    type V = Seq<ColumnView>;

    open spec fn view(&self) -> Seq<ColumnView> {
        Seq::new(self.columns@.len(), |k: int| self.columns@[k]@)
    }
}

impl LazyBatchColumnVec {
    /// Number of columns.
    pub fn columns_len(&self) -> (r: usize)
        ensures
            r == self@.len(),
    {
        self.columns.len()
    }

    /// Number of rows: that of the first column, or zero without columns.
    pub fn rows_len(&self) -> (r: usize)
        ensures
            self@.len() == 0 ==> r == 0,
            self@.len() > 0 ==> r == column_len(self@[0]),
    {
        if self.columns.len() == 0 {
            0
        } else {
            self.columns[0].len()
        }
    }

    /// The `i`-th column.
    pub fn column(&self, i: usize) -> (r: &LazyBatchColumn)
        requires
            i < self@.len(),
        ensures
            r@ == self@[i as int],
    {
        &self.columns[i]
    }
}

} // verus!
