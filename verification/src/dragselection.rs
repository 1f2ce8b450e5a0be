//! The rectangular drag selection: the two corners of a pointer gesture are
//! normalized, and the cells of their bounding rectangle are walked row by
//! row, left to right.

use vstd::prelude::*;

verus! {

/// Walks every cell of the rectangle spanned by two corners, row-major.
pub struct DragSelection {
    start: (i32, i32),
    end: (i32, i32),
    current_column: i32,
}

impl DragSelection {
    /// The row the walk currently stands in.
    pub closed spec fn cur_row(self) -> int {
        self.start.0 as int
    }

    /// The column the walk currently stands in.
    pub closed spec fn cur_col(self) -> int {
        self.current_column as int
    }

    /// The rectangle's first (leftmost) column.
    pub closed spec fn first_col(self) -> int {
        self.start.1 as int
    }

    /// The rectangle's last row.
    pub closed spec fn last_row(self) -> int {
        self.end.0 as int
    }

    /// The rectangle's last column.
    pub closed spec fn last_col(self) -> int {
        self.end.1 as int
    }

    /// The walk stays inside the normalized rectangle, one row past it at
    /// most, over grid-sized coordinates.
    pub closed spec fn wf(self) -> bool {
        &&& 0 <= self.cur_row() <= self.last_row() + 1
        &&& self.last_row() <= 0x7FFF
        &&& 0 <= self.first_col() <= self.cur_col() <= self.last_col() <= 0x7FFF
    }

    /// Normalize two corners into a rectangle and stand at its top-left
    /// cell. Corners are grid coordinates and must be pre-validated by the
    /// caller.
    pub fn new(corner1: (i32, i32), corner2: (i32, i32)) -> (sel: DragSelection)
        requires
            0 <= corner1.0 <= 0x7FFF,
            0 <= corner1.1 <= 0x7FFF,
            0 <= corner2.0 <= 0x7FFF,
            0 <= corner2.1 <= 0x7FFF,
        ensures
            sel.wf(),
            sel.cur_row() == if corner1.0 <= corner2.0 {
                corner1.0
            } else {
                corner2.0
            },
            sel.last_row() == if corner1.0 <= corner2.0 {
                corner2.0
            } else {
                corner1.0
            },
            sel.first_col() == if corner1.1 <= corner2.1 {
                corner1.1
            } else {
                corner2.1
            },
            sel.last_col() == if corner1.1 <= corner2.1 {
                corner2.1
            } else {
                corner1.1
            },
            sel.cur_col() == sel.first_col(),
    {
        let r0 = if corner1.0 <= corner2.0 {
            corner1.0
        } else {
            corner2.0
        };
        let r1 = if corner1.0 <= corner2.0 {
            corner2.0
        } else {
            corner1.0
        };
        let c0 = if corner1.1 <= corner2.1 {
            corner1.1
        } else {
            corner2.1
        };
        let c1 = if corner1.1 <= corner2.1 {
            corner2.1
        } else {
            corner1.1
        };
        DragSelection { start: (r0, c0), end: (r1, c1), current_column: c0 }
    }

    /// The next cell of the rectangle, row by row, left to right; `None`
    /// once every cell has been yielded.
    pub fn next(&mut self) -> (item: Option<(i32, i32)>)
        requires
            old(self).wf(),
        ensures
            final(self).wf(),
            final(self).first_col() == old(self).first_col(),
            final(self).last_row() == old(self).last_row(),
            final(self).last_col() == old(self).last_col(),
            old(self).cur_row() > old(self).last_row() ==> {
                &&& item is None
                &&& final(self).cur_row() == old(self).cur_row()
                &&& final(self).cur_col() == old(self).cur_col()
            },
            old(self).cur_row() <= old(self).last_row() ==> {
                &&& item == Some(
                    (old(self).cur_row() as i32, old(self).cur_col() as i32),
                )
                &&& (if old(self).cur_col() < old(self).last_col() {
                    final(self).cur_row() == old(self).cur_row() && final(self).cur_col() == old(
                        self,
                    ).cur_col() + 1
                } else {
                    final(self).cur_row() == old(self).cur_row() + 1 && final(self).cur_col()
                        == old(self).first_col()
                })
            },
    {
        if self.start.0 > self.end.0 {
            return None;
        }
        let result = (self.start.0, self.current_column);
        if self.current_column < self.end.1 {
            self.current_column += 1;
        } else {
            self.current_column = self.start.1;
            self.start.0 += 1;
        }
        Some(result)
    }

    /// The number of cells of the remaining rows: the full rectangle when
    /// nothing has been consumed yet.
    pub fn size_hint(&self) -> (sh: (usize, Option<usize>))
        requires
            self.wf(),
        ensures
            sh.0 == (self.last_row() - self.cur_row() + 1) * (self.last_col() - self.first_col()
                + 1),
            sh.1 == Some(sh.0),
    {
        let rows = (self.end.0 - self.start.0 + 1) as usize;
        let cols = (self.end.1 - self.start.1 + 1) as usize;
        proof {
            assert(rows * cols <= 0x8001 * 0x8000) by (nonlinear_arith)
                requires
                    rows <= 0x8001,
                    cols <= 0x8000,
            ;
        }
        let size = rows * cols;
        (size, Some(size))
    }
}

} // verus!
