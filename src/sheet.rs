//! The decisions of reading a worksheet's `dimension` and `sheetData`
//! elements, one XML event at a time: where each cell goes and what it holds.
use vstd::prelude::*;
use vstd::string::StringSliceAdditionalSpecFns;
use crate::cells::{cell_value, value_of, Cell};
use crate::dimension::{cell_spec, dimension_spec, get_dimension};
use crate::error::{malformed, ExcelResult};
use crate::range::{area, Range};

verus! {

/// The cells of a worksheet as they are read: the range, the last cell
/// placed, and the cell whose element is open.
pub struct SheetData<F> {
    pub range: Range<Cell<F>>,
    pub previous: Option<(usize, usize)>,
    pub open: Option<(usize, usize)>,
    pub shared: bool,
    pub seen_value: bool,
}

/// Where a cell goes in a range of view `v`: at its address when it has
/// one, else after the previous cell (the first cell when there is none).
pub open spec fn placement(v: ((u32, u32), (usize, usize)), address: Option<Seq<u8>>, previous: Option<(usize, usize)>) -> Option<(usize, usize)> {
    let (w, h) = (v.1.0 as int, v.1.1 as int);
    match address {
        Some(a) => match cell_spec(a) {
            Some(c) => if v.0.0 <= c.0 < v.0.0 + h && v.0.1 <= c.1 < v.0.1 + w {
                Some(((c.0 - v.0.0) as usize, (c.1 - v.0.1) as usize))
            } else {
                None
            },
            None => None,
        },
        None => match previous {
            None => if w > 0 && h > 0 {
                Some((0usize, 0usize))
            } else {
                None
            },
            Some(p) => if p.1 + 1 < w {
                Some((p.0, (p.1 + 1) as usize))
            } else if p.0 + 1 < h {
                Some(((p.0 + 1) as usize, 0usize))
            } else {
                None
            },
        },
    }
}

pub open spec fn opt_bytes(a: Option<&str>) -> Option<Seq<u8>> {
    match a {
        Some(s) => Some(s.spec_bytes()),
        None => None,
    }
}

impl<F: Clone> SheetData<F> {
    pub open spec fn wf(&self) -> bool {
        &&& self.range.dense()
        &&& (self.open matches Some(p) ==> p.0 < self.range@.1.1 && p.1 < self.range@.1.0)
        &&& (self.previous matches Some(p) ==> p.0 < self.range@.1.1 && p.1 < self.range@.1.0)
    }

    pub open spec fn shape(&self) -> ((u32, u32), (usize, usize)) {
        (self.range@.0, self.range@.1)
    }

    /// Nothing read yet: an empty range at (0, 0).
    pub fn new() -> (r: ExcelResult<SheetData<F>>)
        ensures
            r is Ok,
            r->Ok_0.wf() && r->Ok_0.range@.0 == (0u32, 0u32) && r->Ok_0.range@.1 == (0usize, 0usize)
                && r->Ok_0.previous is None && r->Ok_0.open is None,
    {
        let range = Range::from_cells((0, 0), (0, 0), Vec::new())?;
        Ok(SheetData { range, previous: None, open: None, shared: false, seen_value: false })
    }

    /// A `<dimension>` element with its `ref` attribute: the range is sized
    /// from it, all cells empty.
    pub fn dimension(&mut self, reference: Option<&str>) -> (r: ExcelResult<()>)
        requires
            old(self).wf(),
        ensures
            final(self).wf(),
            reference is None ==> r is Err && r->Err_0 is Malformed,
            reference matches Some(t) ==> match dimension_spec(t.spec_bytes()) {
                None => r is Err && r->Err_0 is Malformed,
                Some(d) => if d.1.0 * d.1.1 > usize::MAX {
                    r is Err && r->Err_0 is Malformed
                } else {
                    r is Ok && final(self).range@.0 == (d.0.0 as u32, d.0.1 as u32)
                        && final(self).range@.1 == (d.1.0 as usize, d.1.1 as usize)
                        && (forall|k: int| 0 <= k < final(self).range@.2.len() ==> final(self).range@.2[k] == Cell::<F>::Empty)
                        && final(self).previous is None && final(self).open is None
                },
            },
    {
        match reference {
            None => Err(malformed("expecting a ref attribute on dimension")),
            Some(t) => {
                let (position, size) = get_dimension(t)?;
                let wh = (size.0 as usize, size.1 as usize);
                let n = match area(wh) {
                    Some(n) => n,
                    None => return Err(malformed("range is too large")),
                };
                let mut cells: Vec<Cell<F>> = Vec::new();
                let mut i: usize = 0;
                while i < n
                    invariant
                        i <= n,
                        cells@.len() == i,
                        forall|k: int| 0 <= k < i ==> cells@[k] == Cell::<F>::Empty,
                    decreases n - i,
                {
                    cells.push(Cell::Empty);
                    i = i + 1;
                }
                let range = Range::from_cells(position, wh, cells)?;
                self.range = range;
                self.previous = None;
                self.open = None;
                Ok(())
            },
        }
    }

    fn place(&self, address: Option<&str>) -> (r: ExcelResult<(usize, usize)>)
        requires
            self.wf(),
        ensures
            match placement(self.shape(), opt_bytes(address), self.previous) {
                Some(p) => r is Ok && r->Ok_0 == p,
                None => r is Err && r->Err_0 is Malformed,
            },
            r is Ok ==> r->Ok_0.0 < self.range@.1.1 && r->Ok_0.1 < self.range@.1.0,
    {
        match address {
            Some(a) => self.range.cell_position(a),
            None => match self.previous {
                None => {
                    let (w, h) = self.range.get_size();
                    if w == 0 || h == 0 {
                        Err(malformed("cell outside the dimension"))
                    } else {
                        Ok((0, 0))
                    }
                },
                Some(p) => match self.range.next_position(p) {
                    Some(q) => Ok(q),
                    None => Err(malformed("cell outside the dimension")),
                },
            },
        }
    }

    /// A `<c>` element with content, its `r` and `t` attributes.
    pub fn cell_start(&mut self, address: Option<&str>, cell_type: Option<&str>) -> (r: ExcelResult<()>)
        requires
            old(self).wf(),
        ensures
            final(self).wf(),
            final(self).range == old(self).range,
            match placement(old(self).shape(), opt_bytes(address), old(self).previous) {
                Some(p) => r is Ok && final(self).open == Some(p) && !final(self).seen_value
                    && final(self).shared == (cell_type matches Some(t) && t.spec_bytes() == seq![0x73u8]),
                None => r is Err && r->Err_0 is Malformed,
            },
    {
        let p = self.place(address)?;
        let shared = match cell_type {
            Some(t) => {
                let b = t.as_bytes();
                let is_s = b.len() == 1 && b[0] == 0x73;
                assert(is_s == (b@ == seq![0x73u8])) by {
                    if b@.len() == 1 && b@[0] == 0x73 {
                        assert(b@ =~= seq![0x73u8]);
                    }
                }
                is_s
            },
            None => false,
        };
        self.open = Some(p);
        self.shared = shared;
        self.seen_value = false;
        Ok(())
    }

    /// A `<c/>` element without content: the cell stays empty.
    pub fn empty_cell(&mut self, address: Option<&str>) -> (r: ExcelResult<()>)
        requires
            old(self).wf(),
        ensures
            final(self).wf(),
            final(self).range == old(self).range,
            match placement(old(self).shape(), opt_bytes(address), old(self).previous) {
                Some(p) => r is Ok && final(self).previous == Some(p),
                None => r is Err && r->Err_0 is Malformed,
            },
    {
        let p = self.place(address)?;
        self.previous = Some(p);
        Ok(())
    }

    /// An element that starts inside the open cell: `Ok(true)` when it is
    /// the cell's value, to be read; `Ok(false)` for what follows a value;
    /// an error for anything else, or when no cell is open.
    pub fn child_start(&self, is_value: bool) -> (r: ExcelResult<bool>)
        ensures
            self.open is None ==> r is Err,
            self.open is Some && self.seen_value ==> r == Ok::<bool, crate::error::ExcelError>(false),
            self.open is Some && !self.seen_value && is_value ==> r == Ok::<bool, crate::error::ExcelError>(true),
            self.open is Some && !self.seen_value && !is_value ==> r is Err && r->Err_0 is Malformed,
    {
        if self.open.is_none() {
            Err(malformed("element outside a cell"))
        } else if self.seen_value {
            Ok(false)
        } else if is_value {
            Ok(true)
        } else {
            Err(malformed("not v node"))
        }
    }

    /// The text of the open cell's `<v>` element; `number` is what the
    /// caller reads it as when it is not an integer.
    pub fn value(&mut self, v: &str, strings: &Vec<String>, number: Option<F>) -> (r: ExcelResult<()>)
        requires
            old(self).wf(),
        ensures
            final(self).wf(),
            match old(self).open {
                None => r is Err,
                Some(p) => match value_of(old(self).shared, v.spec_bytes(), strings@, number) {
                    None => r is Err && final(self).range == old(self).range,
                    Some(c) => r is Ok && final(self).seen_value && final(self).open == old(self).open
                        && final(self).previous == old(self).previous
                        && final(self).range@.0 == old(self).range@.0 && final(self).range@.1 == old(self).range@.1
                        && final(self).range@.2 == old(self).range@.2.update(p.0 * old(self).range@.1.0 + p.1, c),
                },
            },
    {
        match self.open {
            None => Err(malformed("value outside a cell")),
            Some(p) => {
                let c = cell_value(self.shared, v, strings, number)?;
                self.range.set_value(p.0, p.1, c);
                self.seen_value = true;
                Ok(())
            },
        }
    }

    /// The end of the input: the range, when every `<c>` and the
    /// `<sheetData>` element were closed (`complete`), else `Malformed`.
    pub fn finish(self, complete: bool) -> (r: ExcelResult<Range<Cell<F>>>)
        ensures
            complete && self.open is None ==> r is Ok && r->Ok_0@ == self.range@,
            !(complete && self.open is None) ==> r is Err && r->Err_0 is Malformed,
    {
        if !complete || self.open.is_some() {
            return Err(malformed("worksheet ends inside sheetData"));
        }
        Ok(self.range)
    }

    /// The end of the open cell.
    pub fn cell_end(&mut self)
        requires
            old(self).wf(),
        ensures
            final(self).wf(),
            final(self).range == old(self).range,
            old(self).open is Some ==> final(self).previous == old(self).open,
            final(self).open is None,
    {
        if self.open.is_some() {
            self.previous = self.open;
        }
        self.open = None;
    }
}

} // verus!
