//! A rectangle of worksheet cells, and the rules that give cells their values.
use vstd::prelude::*;
use vstd::string::StringSliceAdditionalSpecFns;
use crate::dimension::{cell_spec, dimension_spec, get_dimension, get_row_column};
use crate::error::{malformed, ExcelResult};

verus! {

/// A dense, row-major rectangle of cells: `position` is the (row, column)
/// of its top-left cell, `size` its (width, height).
pub struct Range<T> {
    position: (u32, u32),
    size: (usize, usize),
    inner: Vec<T>,
}

impl<T> View for Range<T> {
    type V = ((u32, u32), (usize, usize), Seq<T>);

    closed spec fn view(&self) -> Self::V {
        (self.position, self.size, self.inner@)
    }
}

/// `width * height`, when it fits in `usize`.
pub fn area(size: (usize, usize)) -> (r: Option<usize>)
    ensures
        size.0 * size.1 <= usize::MAX ==> r == Some((size.0 * size.1) as usize),
        size.0 * size.1 > usize::MAX ==> r is None,
{
    if size.0 != 0 && size.1 > usize::MAX / size.0 {
        assert(size.0 * size.1 > usize::MAX) by (nonlinear_arith)
            requires
                size.0 != 0,
                size.1 > usize::MAX / size.0,
        ;
        return None;
    }
    assert(size.0 * size.1 <= usize::MAX) by (nonlinear_arith)
        requires
            size.0 == 0 || size.1 <= usize::MAX / size.0,
    ;
    Some(size.0 * size.1)
}

impl<T> Range<T> {
    /// Every cell of the rectangle is there: `width * height` of them.
    pub open spec fn dense(&self) -> bool {
        self@.2.len() == self@.1.0 * self@.1.1
    }

    /// A rectangle at `position` of `size` (width, height) holding `cells`,
    /// row by row; an error unless there are `width * height` of them.
    pub fn from_cells(position: (u32, u32), size: (usize, usize), cells: Vec<T>) -> (r: ExcelResult<Range<T>>)
        ensures
            cells@.len() == size.0 * size.1 ==> r is Ok && r->Ok_0@ == (position, size, cells@),
            cells@.len() != size.0 * size.1 ==> r is Err && r->Err_0 is Malformed,
    {
        let count = cells.len();
        match area(size) {
            Some(n) => if count == n {
                Ok(Range { position, size, inner: cells })
            } else {
                Err(malformed("cell count does not match the range size"))
            },
            None => Err(malformed("range is too large")),
        }
    }

    /// A rectangle at `position` of `size` (width, height) whose cells all hold `empty`.
    pub fn new(position: (u32, u32), size: (usize, usize), empty: T) -> (r: ExcelResult<Range<T>>)
        where
            T: Copy,
        ensures
            size.0 * size.1 <= usize::MAX ==> r is Ok && r->Ok_0@.0 == position && r->Ok_0@.1 == size
                && r->Ok_0.dense() && forall|k: int| 0 <= k < r->Ok_0@.2.len() ==> r->Ok_0@.2[k] == empty,
            size.0 * size.1 > usize::MAX ==> r is Err && r->Err_0 is Malformed,
    {
        let n = match area(size) {
            Some(n) => n,
            None => return Err(malformed("range is too large")),
        };
        let mut inner: Vec<T> = Vec::new();
        let mut i: usize = 0;
        while i < n
            invariant
                i <= n,
                inner@.len() == i,
                forall|k: int| 0 <= k < i ==> inner@[k] == empty,
            decreases n - i,
        {
            inner.push(empty);
            i = i + 1;
        }
        Ok(Range { position, size, inner })
    }

    /// A rectangle for a dimension text such as `A1:C4`, its cells all `empty`.
    pub fn from_dimension(dimension: &str, empty: T) -> (r: ExcelResult<Range<T>>)
        where
            T: Copy,
        ensures
            match dimension_spec(dimension.spec_bytes()) {
                None => r is Err && r->Err_0 is Malformed,
                Some(d) => if d.1.0 * d.1.1 <= usize::MAX {
                    r is Ok && r->Ok_0@.0 == (d.0.0 as u32, d.0.1 as u32)
                        && r->Ok_0@.1 == (d.1.0 as usize, d.1.1 as usize) && r->Ok_0.dense()
                        && forall|k: int| 0 <= k < r->Ok_0@.2.len() ==> r->Ok_0@.2[k] == empty
                } else {
                    r is Err && r->Err_0 is Malformed
                },
            },
    {
        let (position, size) = get_dimension(dimension)?;
        Range::new(position, (size.0 as usize, size.1 as usize), empty)
    }

    /// The (row, column) offsets, from the top-left cell, of the cell that
    /// `address` names; an error when it lies outside the rectangle.
    pub fn cell_position(&self, address: &str) -> (r: ExcelResult<(usize, usize)>)
        ensures
            match cell_spec(address.spec_bytes()) {
                None => r is Err && r->Err_0 is Malformed,
                Some(c) => if self@.0.0 <= c.0 < self@.0.0 + self@.1.1 && self@.0.1 <= c.1 < self@.0.1 + self@.1.0 {
                    r is Ok && r->Ok_0 == ((c.0 - self@.0.0) as usize, (c.1 - self@.0.1) as usize)
                } else {
                    r is Err && r->Err_0 is Malformed
                },
            },
            r is Ok ==> r->Ok_0.0 < self@.1.1 && r->Ok_0.1 < self@.1.0,
    {
        let (row, col) = get_row_column(address)?;
        if row < self.position.0 || col < self.position.1 {
            return Err(malformed("cell outside the dimension"));
        }
        let i = (row - self.position.0) as usize;
        let j = (col - self.position.1) as usize;
        if i >= self.size.1 || j >= self.size.0 {
            return Err(malformed("cell outside the dimension"));
        }
        Ok((i, j))
    }

    /// The cell after `pos` in row-major order, if the rectangle has one.
    pub fn next_position(&self, pos: (usize, usize)) -> (r: Option<(usize, usize)>)
        ensures
            pos.1 + 1 < self@.1.0 ==> r == Some((pos.0, (pos.1 + 1) as usize)),
            pos.1 + 1 >= self@.1.0 && pos.0 + 1 < self@.1.1 ==> r == Some(((pos.0 + 1) as usize, 0usize)),
            pos.1 + 1 >= self@.1.0 && pos.0 + 1 >= self@.1.1 ==> r is None,
    {
        if pos.1 < self.size.0 && self.size.0 - pos.1 > 1 {
            Some((pos.0, pos.1 + 1))
        } else if pos.0 < self.size.1 && self.size.1 - pos.0 > 1 {
            Some((pos.0 + 1, 0))
        } else {
            None
        }
    }

    /// get worksheet position (row, column)
    pub fn get_position(&self) -> (r: (u32, u32))
        ensures
            r == self@.0,
    {
        self.position
    }

    /// get size (width, height)
    pub fn get_size(&self) -> (r: (usize, usize))
        ensures
            r == self@.1,
    {
        self.size
    }

    /// The cell at row `i`, column `j`, counted from the top-left cell.
    pub fn get_value(&self, i: usize, j: usize) -> (r: &T)
        requires
            self.dense(),
            i < self@.1.1,
            j < self@.1.0,
        ensures
            *r == self@.2[i * self@.1.0 + j],
    {
        proof {
            assert(i * self.size.0 + j < self.size.0 * self.size.1) by (nonlinear_arith)
                requires
                    i < self.size.1,
                    j < self.size.0,
            ;
        }
        let _n = self.inner.len();
        &self.inner[i * self.size.0 + j]
    }

    /// Sets the cell at row `i`, column `j`.
    pub fn set_value(&mut self, i: usize, j: usize, value: T)
        requires
            old(self).dense(),
            i < old(self)@.1.1,
            j < old(self)@.1.0,
        ensures
            final(self)@.0 == old(self)@.0,
            final(self)@.1 == old(self)@.1,
            final(self)@.2 == old(self)@.2.update(i * old(self)@.1.0 + j, value),
            final(self).dense(),
    {
        proof {
            assert(i * self.size.0 + j < self.size.0 * self.size.1) by (nonlinear_arith)
                requires
                    i < self.size.1,
                    j < self.size.0,
            ;
        }
        let _n = self.inner.len();
        let idx = i * self.size.0 + j;
        self.inner.set(idx, value);
    }

    /// The rows of the rectangle, top to bottom.
    pub fn rows(&self) -> (r: Vec<&[T]>)
        requires
            self.dense(),
        ensures
            r@.len() == self@.1.1,
            forall|k: int| 0 <= k < r@.len() ==> (#[trigger] r@[k])@ == self@.2.subrange(
                k * self@.1.0,
                (k + 1) * self@.1.0,
            ),
    {
        let w = self.size.0;
        let h = self.size.1;
        let _n = self.inner.len();
        let mut out: Vec<&[T]> = Vec::new();
        let mut k: usize = 0;
        while k < h
            invariant
                k <= h,
                w == self.size.0,
                h == self.size.1,
                self.inner@.len() == w * h,
                w * h <= usize::MAX,
                out@.len() == k,
                forall|m: int| 0 <= m < k ==> (#[trigger] out@[m])@ == self.inner@.subrange(m * w, (m + 1) * w),
            decreases h - k,
        {
            assert((k + 1) * w <= w * h) by (nonlinear_arith)
                requires
                    k < h,
            ;
            assert(k * w + w == (k + 1) * w) by (nonlinear_arith);
            let row = &self.inner.as_slice()[k * w..(k + 1) * w];
            out.push(row);
            k = k + 1;
        }
        out
    }
}

} // verus!
