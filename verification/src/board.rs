//! The puzzle board: a square solution grid set by an author, the player's
//! field grid of the same size, and the derived row/column clue grids, kept
//! consistent with the solution at all times.

use vstd::prelude::*;

use crate::cell::FieldCell;
use crate::cell::HintCell;
use crate::codec::code_decodes;
use crate::codec::spec_body_bytes;
use crate::codec::spec_height;
use crate::codec::spec_width;
use crate::codec::unpack_cells;
use crate::codec::valid_model;
use crate::grid::Grid;

verus! {

/// The clue slots a line of `n` cells gets: the most disjoint runs such a
/// line can hold, since runs and single-cell gaps alternate.
pub open spec fn hint_slots(n: int) -> int {
    (n + 1) / 2
}

/// The lengths of the maximal runs of consecutive `Filled` cells in a line,
/// in reading order.
pub open spec fn runs(line: Seq<FieldCell>) -> Seq<int>
    decreases line.len(),
{
    if line.len() == 0 {
        Seq::empty()
    } else {
        let prefix = runs(line.drop_last());
        if line.last() != FieldCell::Filled {
            prefix
        } else if line.len() >= 2 && line[line.len() - 2] == FieldCell::Filled {
            prefix.update(prefix.len() - 1, prefix.last() + 1)
        } else {
            prefix.push(1)
        }
    }
}

/// Run lengths right-aligned into a fixed number of clue slots: unfilled
/// leading slots read 0, and extra leading runs (never produced by a line
/// that fits its slots) are dropped.
pub open spec fn aligned_hints(rs: Seq<int>, slots: int) -> Seq<int> {
    if rs.len() <= slots {
        Seq::new((slots - rs.len()) as nat, |i: int| 0) + rs
    } else {
        rs.skip(rs.len() - slots)
    }
}

/// Row `r` of a grid as a sequence, left to right.
pub open spec fn row_seq(g: Grid<FieldCell>, r: int) -> Seq<FieldCell> {
    Seq::new(g.width_spec() as nat, |c: int| g.cell_spec(r, c))
}

/// Column `c` of a grid as a sequence, top to bottom.
pub open spec fn col_seq(g: Grid<FieldCell>, c: int) -> Seq<FieldCell> {
    Seq::new(g.height_spec() as nat, |r: int| g.cell_spec(r, c))
}

/// A line ending in a filled cell has at least one run, and its last run is
/// at most the line length.
proof fn lemma_runs_last_filled(line: Seq<FieldCell>)
    requires
        line.len() > 0,
        line.last() == FieldCell::Filled,
    ensures
        runs(line).len() > 0,
        1 <= runs(line).last() <= line.len(),
    decreases line.len(),
{
    if line.len() >= 2 && line[line.len() - 2] == FieldCell::Filled {
        lemma_runs_last_filled(line.drop_last());
    }
}

/// A line never holds more runs than its clue slots: runs and gaps
/// alternate, so a line of `n` cells fits at most `(n + 1) / 2` runs. The
/// bound is tight exactly when the line ends in a filled cell.
pub proof fn lemma_runs_bound(line: Seq<FieldCell>)
    ensures
        runs(line).len() <= hint_slots(line.len() as int),
        line.len() > 0 && line.last() != FieldCell::Filled ==> runs(line).len() <= line.len()
            as int / 2,
    decreases line.len(),
{
    if line.len() > 0 {
        lemma_runs_bound(line.drop_last());
        let n = line.len() as int;
        vstd::arithmetic::div_mod::lemma_fundamental_div_mod(n, 2);
        vstd::arithmetic::div_mod::lemma_fundamental_div_mod(n + 1, 2);
        vstd::arithmetic::div_mod::lemma_fundamental_div_mod(n - 1, 2);
        if line.last() != FieldCell::Filled {
        } else if line.len() >= 2 && line[line.len() - 2] == FieldCell::Filled {
            lemma_runs_last_filled(line.drop_last());
        } else {
            if line.len() >= 2 {
                assert(line.drop_last().last() != FieldCell::Filled);
            }
        }
    }
}

/// `u16` run lengths as mathematical integers.
pub open spec fn to_ints(v: Seq<u16>) -> Seq<int> {
    v.map_values(|x: u16| x as int)
}

/// One editing step on the player's field: fill the cell only if it is
/// empty; report whether anything changed.
pub open spec fn fill_spec(cells: Seq<FieldCell>, i: int) -> (Seq<FieldCell>, bool) {
    if cells[i] == FieldCell::Empty {
        (cells.update(i, FieldCell::Filled), true)
    } else {
        (cells, false)
    }
}

/// One editing step on the player's field: mark the cell unless it is
/// already marked; report whether anything changed.
pub open spec fn mark_spec(cells: Seq<FieldCell>, i: int) -> (Seq<FieldCell>, bool) {
    if cells[i] != FieldCell::Marked {
        (cells.update(i, FieldCell::Marked), true)
    } else {
        (cells, false)
    }
}

/// One editing step on the player's field: clear a mark, leaving the cell
/// empty; filled and empty cells are untouched.
pub open spec fn unmark_spec(cells: Seq<FieldCell>, i: int) -> (Seq<FieldCell>, bool) {
    if cells[i] == FieldCell::Marked {
        (cells.update(i, FieldCell::Empty), true)
    } else {
        (cells, false)
    }
}

/// One authoring step on the solution: set the cell filled or empty; report
/// whether the solution changed.
pub open spec fn set_spec(cells: Seq<FieldCell>, i: int, filled: bool) -> (Seq<FieldCell>, bool) {
    let target = if filled {
        FieldCell::Filled
    } else {
        FieldCell::Empty
    };
    if cells[i] != target {
        (cells.update(i, target), true)
    } else {
        (cells, false)
    }
}

/// Filling a cell twice changes nothing the second time: the second step
/// reports no change and leaves the field exactly as the first step left it.
pub proof fn lemma_fill_idempotent(cells: Seq<FieldCell>, i: int)
    requires
        0 <= i < cells.len(),
    ensures
        fill_spec(fill_spec(cells, i).0, i).1 == false,
        fill_spec(fill_spec(cells, i).0, i).0 == fill_spec(cells, i).0,
{
}

/// The default solution pattern of a fresh board.
pub open spec fn default_pattern(i: int) -> FieldCell {
    if i % 3 == 0 || i % 7 == 0 || i % 11 == 0 {
        FieldCell::Filled
    } else {
        FieldCell::Empty
    }
}

/// A puzzle code yields a board directly when the decoder accepts it and
/// the decoded grid is square; every other code falls back to the default
/// board. (A zero declared width forces a zero height, so such a grid is
/// square.)
pub open spec fn accepts_code(s: Seq<char>) -> bool {
    &&& code_decodes(s)
    &&& spec_width(s) == 0 || spec_width(s) == spec_height(s)
}

/// A square nonogram board: the author's solution, the player's field, and
/// the clue grids derived from the solution.
pub struct Board {
    width: usize,
    field: Grid<FieldCell>,
    solution: Grid<FieldCell>,
    col_hints: Grid<HintCell>,
    row_hints: Grid<HintCell>,
}

impl Board {
    /// Side length of the square playing field.
    pub closed spec fn width_spec(self) -> int {
        self.width as int
    }

    /// Clue slots per row and per column.
    pub open spec fn hint_len_spec(self) -> int {
        hint_slots(self.width_spec())
    }

    /// The player's field grid.
    pub closed spec fn field_grid(self) -> Grid<FieldCell> {
        self.field
    }

    /// The author's solution grid.
    pub closed spec fn solution_grid(self) -> Grid<FieldCell> {
        self.solution
    }

    /// The column clue grid: slot `p` of column `c` is its cell `(p, c)`.
    pub closed spec fn col_hints_grid(self) -> Grid<HintCell> {
        self.col_hints
    }

    /// The row clue grid: slot `p` of row `r` is its cell `(r, p)`.
    pub closed spec fn row_hints_grid(self) -> Grid<HintCell> {
        self.row_hints
    }

    /// The shape invariant: field and solution are square grids of the board
    /// width, and the clue grids have one slot line per row and column.
    pub open spec fn shape_ok(self) -> bool {
        &&& 0 <= self.width_spec() <= 0xFFFF
        &&& self.field_grid().wf()
        &&& self.field_grid().width_spec() == self.width_spec()
        &&& self.field_grid().height_spec() == self.width_spec()
        &&& self.solution_grid().wf()
        &&& self.solution_grid().width_spec() == self.width_spec()
        &&& self.solution_grid().height_spec() == self.width_spec()
        &&& self.col_hints_grid().wf()
        &&& self.col_hints_grid().width_spec() == self.width_spec()
        &&& self.col_hints_grid().height_spec() == self.hint_len_spec()
        &&& self.row_hints_grid().wf()
        &&& self.row_hints_grid().width_spec() == self.hint_len_spec()
        &&& self.row_hints_grid().height_spec() == self.width_spec()
    }

    /// The clue invariant: every clue slot shows the right-aligned run
    /// lengths of its solution line.
    pub open spec fn hints_ok(self) -> bool {
        &&& forall|c: int, p: int|
            0 <= c < self.width_spec() && 0 <= p < self.hint_len_spec() ==> (
            #[trigger] self.col_hints_grid().cell_spec(p, c)).number == aligned_hints(
                runs(col_seq(self.solution_grid(), c)),
                self.hint_len_spec(),
            )[p]
        &&& forall|r: int, p: int|
            0 <= r < self.width_spec() && 0 <= p < self.hint_len_spec() ==> (
            #[trigger] self.row_hints_grid().cell_spec(r, p)).number == aligned_hints(
                runs(row_seq(self.solution_grid(), r)),
                self.hint_len_spec(),
            )[p]
    }

    /// A board is well-formed when its shape holds and its clues are
    /// consistent with its solution.
    pub open spec fn wf(self) -> bool {
        self.shape_ok() && self.hints_ok()
    }

    /// The run lengths of row `r` of the solution.
    fn line_runs_row(&self, r: usize) -> (counts: Vec<u16>)
        requires
            self.shape_ok(),
            r < self.width_spec(),
        ensures
            to_ints(counts@) == runs(row_seq(self.solution_grid(), r as int)),
    {
        let ghost line = row_seq(self.solution_grid(), r as int);
        let w = self.width;
        let mut counts: Vec<u16> = Vec::new();
        let mut prev_filled = false;
        let mut c: usize = 0;
        while c < w
            invariant
                c <= w,
                w == self.width_spec(),
                self.shape_ok(),
                line == row_seq(self.solution_grid(), r as int),
                r < self.width_spec(),
                line.len() == w,
                prev_filled == (c > 0 && line[c - 1] == FieldCell::Filled),
                to_ints(counts@) == runs(line.take(c as int)),
                forall|j: int| 0 <= j < counts@.len() ==> #[trigger] counts@[j] <= c,
            decreases w - c,
        {
            let cell = self.solution.get(r, c);
            proof {
                assert(cell == line[c as int]);
                assert(line.take(c + 1).drop_last() =~= line.take(c as int));
                assert(line.take(c + 1).last() == line[c as int]);
            }
            if cell == FieldCell::Filled {
                if prev_filled {
                    proof {
                        lemma_runs_last_filled(line.take(c as int));
                    }
                    let m = counts.len();
                    let last = counts[m - 1];
                    counts.set(m - 1, last + 1);
                    proof {
                        assert(to_ints(counts@) =~= runs(line.take(c + 1)));
                    }
                } else {
                    counts.push(1);
                    proof {
                        assert(to_ints(counts@) =~= runs(line.take(c + 1)));
                    }
                }
                prev_filled = true;
            } else {
                prev_filled = false;
                proof {
                    assert(to_ints(counts@) =~= runs(line.take(c + 1)));
                }
            }
            c += 1;
        }
        proof {
            assert(line.take(w as int) =~= line);
        }
        counts
    }

    /// Write the clue slots of row `r` from its run lengths, right-aligned,
    /// preserving the crossed-off annotations.
    fn write_row_hints(&mut self, r: usize, counts: &Vec<u16>)
        requires
            old(self).shape_ok(),
            r < old(self).width_spec(),
            to_ints(counts@) == runs(row_seq(old(self).solution_grid(), r as int)),
        ensures
            final(self).shape_ok(),
            final(self).width_spec() == old(self).width_spec(),
            final(self).field_grid() == old(self).field_grid(),
            final(self).solution_grid() == old(self).solution_grid(),
            final(self).col_hints_grid() == old(self).col_hints_grid(),
            forall|r2: int, p: int|
                0 <= r2 < old(self).width_spec() && 0 <= p < old(self).hint_len_spec() && r2 != r
                    ==> final(self).row_hints_grid().cell_spec(r2, p) == old(self).row_hints_grid().cell_spec(r2, p),
            forall|p: int|
                0 <= p < old(self).hint_len_spec() ==> (#[trigger] final(self).row_hints_grid().cell_spec(r as int, p)).number == aligned_hints(
                    runs(row_seq(old(self).solution_grid(), r as int)),
                    old(self).hint_len_spec(),
                )[p] && final(self).row_hints_grid().cell_spec(r as int, p).crossed == old(self).row_hints_grid().cell_spec(r as int, p).crossed,
    {
        let slots = (self.width + 1) / 2;
        let m = counts.len();
        let ghost rs = runs(row_seq(self.solution_grid(), r as int));
        let ghost aligned = aligned_hints(rs, slots as int);
        let mut p: usize = 0;
        while p < slots
            invariant
                p <= slots,
                slots == old(self).hint_len_spec(),
                m == counts@.len(),
                to_ints(counts@) == rs,
                rs == runs(row_seq(old(self).solution_grid(), r as int)),
                aligned == aligned_hints(rs, slots as int),
                r < old(self).width_spec(),
                self.shape_ok(),
                self.width_spec() == old(self).width_spec(),
                self.field_grid() == old(self).field_grid(),
                self.solution_grid() == old(self).solution_grid(),
                self.col_hints_grid() == old(self).col_hints_grid(),
                forall|r2: int, q: int|
                    0 <= r2 < old(self).width_spec() && 0 <= q < old(self).hint_len_spec() && r2
                        != r ==> self.row_hints_grid().cell_spec(r2, q) == old(self).row_hints_grid().cell_spec(r2, q),
                forall|q: int|
                    0 <= q < p ==> (#[trigger] self.row_hints_grid().cell_spec(r as int, q)).number
                        == aligned[q] && self.row_hints_grid().cell_spec(r as int, q).crossed
                        == old(self).row_hints_grid().cell_spec(r as int, q).crossed,
                forall|q: int|
                    p <= q < old(self).hint_len_spec() ==> self.row_hints_grid().cell_spec(
                        r as int,
                        q,
                    ) == old(self).row_hints_grid().cell_spec(r as int, q),
            decreases slots - p,
        {
            let v: u16 = if m <= slots {
                if p < slots - m {
                    0u16
                } else {
                    counts[p - (slots - m)]
                }
            } else {
                counts[p + (m - slots)]
            };
            proof {
                assert(v == aligned[p as int]);
            }
            let mut cell = self.row_hints.get(r, p);
            cell.number = v;
            let ghost before = self.row_hints;
            self.row_hints.set(r, p, cell);
            proof {
                let wh = old(self).hint_len_spec();
                let g = self.row_hints;
                before.lemma_wf_bounds();
                crate::grid::lemma_flat_bounds(wh, old(self).width_spec(), r as int, p as int);
                assert(g.cells_spec() == before.cells_spec().update(r * wh + p, cell));
                assert(g.cell_spec(r as int, p as int) == cell);
                assert forall|r2: int, q: int|
                    0 <= r2 < old(self).width_spec() && 0 <= q < wh && !(r2 == r && q == p)
                        implies g.cell_spec(r2, q) == before.cell_spec(r2, q) by {
                    crate::grid::lemma_flat_bounds(wh, old(self).width_spec(), r2, q);
                    if r2 * wh + q == r * wh + p {
                        crate::grid::lemma_flat_unique(wh, r2, q, r as int, p as int);
                    } else {
                        assert(g.cells_spec()[r2 * wh + q] == before.cells_spec()[r2 * wh + q]);
                    }
                }
            }
            p += 1;
        }
    }

    /// Write the clue slots of column `c` from its run lengths,
    /// right-aligned, preserving the crossed-off annotations.
    fn write_col_hints(&mut self, c: usize, counts: &Vec<u16>)
        requires
            old(self).shape_ok(),
            c < old(self).width_spec(),
            to_ints(counts@) == runs(col_seq(old(self).solution_grid(), c as int)),
        ensures
            final(self).shape_ok(),
            final(self).width_spec() == old(self).width_spec(),
            final(self).field_grid() == old(self).field_grid(),
            final(self).solution_grid() == old(self).solution_grid(),
            final(self).row_hints_grid() == old(self).row_hints_grid(),
            forall|c2: int, p: int|
                0 <= c2 < old(self).width_spec() && 0 <= p < old(self).hint_len_spec() && c2 != c
                    ==> final(self).col_hints_grid().cell_spec(p, c2) == old(self).col_hints_grid().cell_spec(p, c2),
            forall|p: int|
                0 <= p < old(self).hint_len_spec() ==> (#[trigger] final(self).col_hints_grid().cell_spec(p, c as int)).number == aligned_hints(
                    runs(col_seq(old(self).solution_grid(), c as int)),
                    old(self).hint_len_spec(),
                )[p] && final(self).col_hints_grid().cell_spec(p, c as int).crossed == old(self).col_hints_grid().cell_spec(p, c as int).crossed,
    {
        let slots = (self.width + 1) / 2;
        let m = counts.len();
        let ghost rs = runs(col_seq(self.solution_grid(), c as int));
        let ghost aligned = aligned_hints(rs, slots as int);
        let mut p: usize = 0;
        while p < slots
            invariant
                p <= slots,
                slots == old(self).hint_len_spec(),
                m == counts@.len(),
                to_ints(counts@) == rs,
                rs == runs(col_seq(old(self).solution_grid(), c as int)),
                aligned == aligned_hints(rs, slots as int),
                c < old(self).width_spec(),
                self.shape_ok(),
                self.width_spec() == old(self).width_spec(),
                self.field_grid() == old(self).field_grid(),
                self.solution_grid() == old(self).solution_grid(),
                self.row_hints_grid() == old(self).row_hints_grid(),
                forall|c2: int, q: int|
                    0 <= c2 < old(self).width_spec() && 0 <= q < old(self).hint_len_spec() && c2
                        != c ==> self.col_hints_grid().cell_spec(q, c2) == old(self).col_hints_grid().cell_spec(q, c2),
                forall|q: int|
                    0 <= q < p ==> (#[trigger] self.col_hints_grid().cell_spec(q, c as int)).number
                        == aligned[q] && self.col_hints_grid().cell_spec(q, c as int).crossed
                        == old(self).col_hints_grid().cell_spec(q, c as int).crossed,
                forall|q: int|
                    p <= q < old(self).hint_len_spec() ==> self.col_hints_grid().cell_spec(
                        q,
                        c as int,
                    ) == old(self).col_hints_grid().cell_spec(q, c as int),
            decreases slots - p,
        {
            let v: u16 = if m <= slots {
                if p < slots - m {
                    0u16
                } else {
                    counts[p - (slots - m)]
                }
            } else {
                counts[p + (m - slots)]
            };
            proof {
                assert(v == aligned[p as int]);
            }
            let mut cell = self.col_hints.get(p, c);
            cell.number = v;
            let ghost before = self.col_hints;
            self.col_hints.set(p, c, cell);
            proof {
                let w = old(self).width_spec();
                let g = self.col_hints;
                before.lemma_wf_bounds();
                crate::grid::lemma_flat_bounds(w, old(self).hint_len_spec(), p as int, c as int);
                assert(g.cells_spec() == before.cells_spec().update(p * w + c, cell));
                assert(g.cell_spec(p as int, c as int) == cell);
                assert forall|c2: int, q: int|
                    0 <= c2 < w && 0 <= q < old(self).hint_len_spec() && !(c2 == c && q == p)
                        implies g.cell_spec(q, c2) == before.cell_spec(q, c2) by {
                    crate::grid::lemma_flat_bounds(w, old(self).hint_len_spec(), q, c2);
                    if q * w + c2 == p * w + c {
                        crate::grid::lemma_flat_unique(w, q, c2, p as int, c as int);
                    } else {
                        assert(g.cells_spec()[q * w + c2] == before.cells_spec()[q * w + c2]);
                    }
                }
            }
            p += 1;
        }
    }

    /// Recompute every clue from the solution, for every row and every
    /// column, establishing the clue invariant.
    fn generate_hints(&mut self)
        requires
            old(self).shape_ok(),
        ensures
            final(self).shape_ok(),
            final(self).hints_ok(),
            final(self).wf(),
            final(self).width_spec() == old(self).width_spec(),
            final(self).field_grid() == old(self).field_grid(),
            final(self).solution_grid() == old(self).solution_grid(),
            forall|r: int, p: int|
                0 <= r < old(self).width_spec() && 0 <= p < old(self).hint_len_spec() ==> (
                #[trigger] final(self).row_hints_grid().cell_spec(r, p)).crossed == old(self).row_hints_grid().cell_spec(r, p).crossed,
            forall|c: int, p: int|
                0 <= c < old(self).width_spec() && 0 <= p < old(self).hint_len_spec() ==> (
                #[trigger] final(self).col_hints_grid().cell_spec(p, c)).crossed == old(self).col_hints_grid().cell_spec(p, c).crossed,
    {
        let w = self.width;
        let mut c: usize = 0;
        while c < w
            invariant
                c <= w,
                w == old(self).width_spec(),
                self.shape_ok(),
                self.width_spec() == old(self).width_spec(),
                self.field_grid() == old(self).field_grid(),
                self.solution_grid() == old(self).solution_grid(),
                self.row_hints_grid() == old(self).row_hints_grid(),
                forall|c2: int, p: int|
                    0 <= c2 < c && 0 <= p < old(self).hint_len_spec() ==> (
                    #[trigger] self.col_hints_grid().cell_spec(p, c2)).number == aligned_hints(
                        runs(col_seq(old(self).solution_grid(), c2)),
                        old(self).hint_len_spec(),
                    )[p],
                forall|c2: int, p: int|
                    0 <= c2 < old(self).width_spec() && 0 <= p < old(self).hint_len_spec() ==> (
                    #[trigger] self.col_hints_grid().cell_spec(p, c2)).crossed == old(self).col_hints_grid().cell_spec(p, c2).crossed,
            decreases w - c,
        {
            let counts = self.line_runs_col(c);
            self.write_col_hints(c, &counts);
            c += 1;
        }
        let mut r: usize = 0;
        while r < w
            invariant
                r <= w,
                w == old(self).width_spec(),
                self.shape_ok(),
                self.width_spec() == old(self).width_spec(),
                self.field_grid() == old(self).field_grid(),
                self.solution_grid() == old(self).solution_grid(),
                forall|c2: int, p: int|
                    0 <= c2 < old(self).width_spec() && 0 <= p < old(self).hint_len_spec() ==> (
                    #[trigger] self.col_hints_grid().cell_spec(p, c2)).number == aligned_hints(
                        runs(col_seq(old(self).solution_grid(), c2)),
                        old(self).hint_len_spec(),
                    )[p],
                forall|c2: int, p: int|
                    0 <= c2 < old(self).width_spec() && 0 <= p < old(self).hint_len_spec() ==> (
                    #[trigger] self.col_hints_grid().cell_spec(p, c2)).crossed == old(self).col_hints_grid().cell_spec(p, c2).crossed,
                forall|r2: int, p: int|
                    0 <= r2 < r && 0 <= p < old(self).hint_len_spec() ==> (
                    #[trigger] self.row_hints_grid().cell_spec(r2, p)).number == aligned_hints(
                        runs(row_seq(old(self).solution_grid(), r2)),
                        old(self).hint_len_spec(),
                    )[p],
                forall|r2: int, p: int|
                    0 <= r2 < old(self).width_spec() && 0 <= p < old(self).hint_len_spec() ==> (
                    #[trigger] self.row_hints_grid().cell_spec(r2, p)).crossed == old(self).row_hints_grid().cell_spec(r2, p).crossed,
            decreases w - r,
        {
            let counts = self.line_runs_row(r);
            self.write_row_hints(r, &counts);
            r += 1;
        }
    }

    /// The run lengths of column `c` of the solution.
    fn line_runs_col(&self, c: usize) -> (counts: Vec<u16>)
        requires
            self.shape_ok(),
            c < self.width_spec(),
        ensures
            to_ints(counts@) == runs(col_seq(self.solution_grid(), c as int)),
    {
        let ghost line = col_seq(self.solution_grid(), c as int);
        let w = self.width;
        let mut counts: Vec<u16> = Vec::new();
        let mut prev_filled = false;
        let mut r: usize = 0;
        while r < w
            invariant
                r <= w,
                w == self.width_spec(),
                self.shape_ok(),
                line == col_seq(self.solution_grid(), c as int),
                c < self.width_spec(),
                line.len() == w,
                prev_filled == (r > 0 && line[r - 1] == FieldCell::Filled),
                to_ints(counts@) == runs(line.take(r as int)),
                forall|j: int| 0 <= j < counts@.len() ==> #[trigger] counts@[j] <= r,
            decreases w - r,
        {
            let cell = self.solution.get(r, c);
            proof {
                assert(cell == line[r as int]);
                assert(line.take(r + 1).drop_last() =~= line.take(r as int));
                assert(line.take(r + 1).last() == line[r as int]);
            }
            if cell == FieldCell::Filled {
                if prev_filled {
                    proof {
                        lemma_runs_last_filled(line.take(r as int));
                    }
                    let m = counts.len();
                    let last = counts[m - 1];
                    counts.set(m - 1, last + 1);
                    proof {
                        assert(to_ints(counts@) =~= runs(line.take(r + 1)));
                    }
                } else {
                    counts.push(1);
                    proof {
                        assert(to_ints(counts@) =~= runs(line.take(r + 1)));
                    }
                }
                prev_filled = true;
            } else {
                prev_filled = false;
                proof {
                    assert(to_ints(counts@) =~= runs(line.take(r + 1)));
                }
            }
            r += 1;
        }
        proof {
            assert(line.take(w as int) =~= line);
        }
        counts
    }
}

impl Board {
    /// A fresh board: a 10-wide square with a deterministic built-in default
    /// solution pattern, an empty field, and consistent clues.
    pub fn new() -> (b: Board)
        ensures
            b.wf(),
            b.width_spec() == 10,
            b.solution_grid().cells_spec() == Seq::new(100, |i: int| default_pattern(i)),
            b.field_grid().cells_spec() == Seq::new(100, |i: int| FieldCell::Empty),
    {
        let width: usize = 10;
        let mut pattern: Vec<FieldCell> = Vec::new();
        let mut i: usize = 0;
        while i < 100
            invariant
                i <= 100,
                pattern@ == Seq::new(i as nat, |j: int| default_pattern(j)),
            decreases 100 - i,
        {
            let cell = if i % 3 == 0 || i % 7 == 0 || i % 11 == 0 {
                FieldCell::Filled
            } else {
                FieldCell::Empty
            };
            pattern.push(cell);
            proof {
                assert(pattern@ =~= Seq::new((i + 1) as nat, |j: int| default_pattern(j)));
            }
            i += 1;
        }
        let solution = Grid::from_flat_exact(width, width, pattern);
        let hint_len = (width + 1) / 2;
        let mut result = Board {
            width,
            field: Grid::new(width, width),
            solution,
            col_hints: Grid::new(width, hint_len),
            row_hints: Grid::new(hint_len, width),
        };
        result.generate_hints();
        proof {
            assert(result.field_grid().cells_spec() =~= Seq::new(
                100,
                |i: int| FieldCell::Empty,
            ));
        }
        result
    }

    /// A board built from a decoded puzzle code. A code the decoder accepts
    /// whose grid is square yields exactly that grid as the solution; every
    /// other code — unknown, corrupt, over-long, or non-square — falls back
    /// to the default-sized (10-wide) empty board. The field starts empty
    /// either way, and the clues are consistent before the board is handed
    /// out.
    pub fn from_serialized_solution(serialized_solution: &str) -> (b: Board)
        ensures
            b.wf(),
            forall|i: int|
                0 <= i < b.field_grid().cells_spec().len() ==> b.field_grid().cells_spec()[i]
                    == FieldCell::Empty,
            accepts_code(serialized_solution@) ==> {
                &&& b.width_spec() == spec_width(serialized_solution@)
                &&& b.solution_grid().cells_spec() == unpack_cells::<FieldCell>(
                    spec_body_bytes(serialized_solution@),
                    spec_width(serialized_solution@) * spec_height(serialized_solution@),
                )
            },
            !accepts_code(serialized_solution@) ==> {
                &&& b.width_spec() == 10
                &&& b.solution_grid().cells_spec() == Seq::new(100, |i: int| FieldCell::Empty)
            },
            forall|w: int, h: int, cells: Seq<FieldCell>|
                #[trigger] valid_model::<FieldCell>(serialized_solution@, w, h, cells) && w == h
                    ==> b.width_spec() == w && b.solution_grid().cells_spec() == cells,
    {
        let ghost s = serialized_solution@;
        let decoded = Grid::<FieldCell>::from_base64(serialized_solution);
        let solution: Grid<FieldCell> = match decoded {
            Ok(g) => {
                if g.width() == g.height() {
                    proof {
                        if spec_width(s) != 0 {
                            assert(g.height_spec() == spec_height(s));
                        }
                        assert(accepts_code(s));
                    }
                    g
                } else {
                    proof {
                        if spec_width(s) == 0 {
                            assert(g.width_spec() == g.height_spec());
                        }
                        assert(!accepts_code(s));
                    }
                    Grid::new(10, 10)
                }
            },
            Err(_) => {
                proof {
                    assert(!code_decodes(s)) by {
                        if code_decodes(s) {
                            assert(false);
                        }
                    }
                }
                Grid::new(10, 10)
            },
        };
        proof {
            assert(Seq::new(100, |i: int| FieldCell::Empty) =~= Seq::new(
                (10 * 10) as nat,
                |i: int| <FieldCell as crate::cell::GridItem>::default_spec(),
            ));
            if accepts_code(s) {
                assert(solution.width_spec() == spec_width(s));
                assert(solution.cells_spec() == unpack_cells::<FieldCell>(
                    spec_body_bytes(s),
                    spec_width(s) * spec_height(s),
                ));
            } else {
                assert(solution.width_spec() == 10);
                assert(solution.cells_spec() == Seq::new(100, |i: int| FieldCell::Empty));
            }
        }
        let width = solution.width();
        let hint_len = (width + 1) / 2;
        let mut result = Board {
            width,
            field: Grid::new(width, width),
            solution,
            col_hints: Grid::new(width, hint_len),
            row_hints: Grid::new(hint_len, width),
        };
        result.generate_hints();
        result
    }

    /// Side length of the square playing field.
    pub fn width(&self) -> (w: usize)
        ensures
            w == self.width_spec(),
    {
        self.width
    }

    /// Clue slots per row and per column.
    pub fn hint_len(&self) -> (n: usize)
        requires
            self.shape_ok(),
        ensures
            n == self.hint_len_spec(),
    {
        (self.solution.width() + 1) / 2
    }

    /// The clue in slot `pos` of column `col`. With a well-formed board this
    /// is the right-aligned run length of that column.
    pub fn col_hint(&self, col: usize, pos: usize) -> (r: HintCell)
        requires
            self.wf(),
            col < self.width_spec(),
            pos < self.hint_len_spec(),
        ensures
            r == self.col_hints_grid().cell_spec(pos as int, col as int),
            r.number == aligned_hints(
                runs(col_seq(self.solution_grid(), col as int)),
                self.hint_len_spec(),
            )[pos as int],
    {
        self.col_hints.get(pos, col)
    }

    /// The clue in slot `pos` of row `row`. With a well-formed board this is
    /// the right-aligned run length of that row.
    pub fn row_hint(&self, row: usize, pos: usize) -> (r: HintCell)
        requires
            self.wf(),
            row < self.width_spec(),
            pos < self.hint_len_spec(),
        ensures
            r == self.row_hints_grid().cell_spec(row as int, pos as int),
            r.number == aligned_hints(
                runs(row_seq(self.solution_grid(), row as int)),
                self.hint_len_spec(),
            )[pos as int],
    {
        self.row_hints.get(row, pos)
    }

    /// The player's state of the cell at `(row, col)`.
    pub fn field(&self, row: usize, col: usize) -> (r: FieldCell)
        requires
            self.wf(),
            row < self.width_spec(),
            col < self.width_spec(),
        ensures
            r == self.field_grid().cell_spec(row as int, col as int),
    {
        self.field.get(row, col)
    }

    /// The solution's state of the cell at `(row, col)`.
    pub fn solution(&self, row: usize, col: usize) -> (r: FieldCell)
        requires
            self.wf(),
            row < self.width_spec(),
            col < self.width_spec(),
        ensures
            r == self.solution_grid().cell_spec(row as int, col as int),
    {
        self.solution.get(row, col)
    }

    /// A read-only view of the player's field grid.
    pub fn field_ref(&self) -> (r: &Grid<FieldCell>)
        ensures
            *r == self.field_grid(),
    {
        &self.field
    }

    /// A read-only view of the solution grid.
    pub fn solution_ref(&self) -> (r: &Grid<FieldCell>)
        ensures
            *r == self.solution_grid(),
    {
        &self.solution
    }

    /// Fill a field cell if it is empty; report whether anything changed.
    /// Repeated application is idempotent.
    pub fn fill(&mut self, row: usize, col: usize) -> (changed: bool)
        requires
            old(self).wf(),
            row < old(self).width_spec(),
            col < old(self).width_spec(),
        ensures
            final(self).wf(),
            final(self).width_spec() == old(self).width_spec(),
            final(self).solution_grid() == old(self).solution_grid(),
            final(self).col_hints_grid() == old(self).col_hints_grid(),
            final(self).row_hints_grid() == old(self).row_hints_grid(),
            (final(self).field_grid().cells_spec(), changed) == fill_spec(
                old(self).field_grid().cells_spec(),
                row * old(self).width_spec() + col,
            ),
    {
        let cell = self.field.get(row, col);
        if cell == FieldCell::Empty {
            self.field.set(row, col, FieldCell::Filled);
            true
        } else {
            false
        }
    }

    /// Mark a field cell as known-empty, whatever it held; report whether it
    /// was not already marked.
    pub fn mark(&mut self, row: usize, col: usize) -> (changed: bool)
        requires
            old(self).wf(),
            row < old(self).width_spec(),
            col < old(self).width_spec(),
        ensures
            final(self).wf(),
            final(self).width_spec() == old(self).width_spec(),
            final(self).solution_grid() == old(self).solution_grid(),
            final(self).col_hints_grid() == old(self).col_hints_grid(),
            final(self).row_hints_grid() == old(self).row_hints_grid(),
            (final(self).field_grid().cells_spec(), changed) == mark_spec(
                old(self).field_grid().cells_spec(),
                row * old(self).width_spec() + col,
            ),
    {
        let cell = self.field.get(row, col);
        if cell != FieldCell::Marked {
            self.field.set(row, col, FieldCell::Marked);
            true
        } else {
            false
        }
    }

    /// Remove the mark from a field cell, leaving it empty; report whether
    /// it was marked. Filled and empty cells are untouched.
    pub fn unmark(&mut self, row: usize, col: usize) -> (changed: bool)
        requires
            old(self).wf(),
            row < old(self).width_spec(),
            col < old(self).width_spec(),
        ensures
            final(self).wf(),
            final(self).width_spec() == old(self).width_spec(),
            final(self).solution_grid() == old(self).solution_grid(),
            final(self).col_hints_grid() == old(self).col_hints_grid(),
            final(self).row_hints_grid() == old(self).row_hints_grid(),
            (final(self).field_grid().cells_spec(), changed) == unmark_spec(
                old(self).field_grid().cells_spec(),
                row * old(self).width_spec() + col,
            ),
    {
        let cell = self.field.get(row, col);
        if cell == FieldCell::Marked {
            self.field.set(row, col, FieldCell::Empty);
            true
        } else {
            false
        }
    }

    /// Set a solution cell filled or empty. When the solution changes, every
    /// clue is regenerated before returning, so the clue invariant holds
    /// again; reports whether the solution changed.
    pub fn set(&mut self, row: usize, col: usize, filled: bool) -> (changed: bool)
        requires
            old(self).wf(),
            row < old(self).width_spec(),
            col < old(self).width_spec(),
        ensures
            final(self).wf(),
            final(self).width_spec() == old(self).width_spec(),
            final(self).field_grid() == old(self).field_grid(),
            (final(self).solution_grid().cells_spec(), changed) == set_spec(
                old(self).solution_grid().cells_spec(),
                row * old(self).width_spec() + col,
                filled,
            ),
            forall|r: int, p: int|
                0 <= r < old(self).width_spec() && 0 <= p < old(self).hint_len_spec() ==> (
                #[trigger] final(self).row_hints_grid().cell_spec(r, p)).crossed == old(self).row_hints_grid().cell_spec(r, p).crossed,
            forall|c: int, p: int|
                0 <= c < old(self).width_spec() && 0 <= p < old(self).hint_len_spec() ==> (
                #[trigger] final(self).col_hints_grid().cell_spec(p, c)).crossed == old(self).col_hints_grid().cell_spec(p, c).crossed,
    {
        let target = if filled {
            FieldCell::Filled
        } else {
            FieldCell::Empty
        };
        let cell = self.solution.get(row, col);
        if cell != target {
            self.solution.set(row, col, target);
            self.generate_hints();
            true
        } else {
            false
        }
    }

    /// Change the board's side length: field and solution keep their
    /// overlapping top-left content, and the clues are rebuilt at the new
    /// slot count from the resized solution.
    pub fn resize(&mut self, new_width: usize)
        requires
            old(self).wf(),
            new_width <= 0xFFFF,
        ensures
            final(self).wf(),
            final(self).width_spec() == new_width,
            forall|r: int, c: int|
                0 <= r < new_width && 0 <= c < new_width ==> #[trigger] final(self).field_grid().cell_spec(r, c) == (if r < old(self).width_spec() && c < old(self).width_spec() {
                    old(self).field_grid().cell_spec(r, c)
                } else {
                    FieldCell::Empty
                }),
            forall|r: int, c: int|
                0 <= r < new_width && 0 <= c < new_width ==> #[trigger] final(self).solution_grid().cell_spec(r, c) == (if r < old(self).width_spec() && c < old(self).width_spec() {
                    old(self).solution_grid().cell_spec(r, c)
                } else {
                    FieldCell::Empty
                }),
            forall|r: int, p: int|
                0 <= r < new_width && 0 <= p < hint_slots(new_width as int) ==> (#[trigger] final(self).row_hints_grid().cell_spec(r, p)).crossed == false,
            forall|c: int, p: int|
                0 <= c < new_width && 0 <= p < hint_slots(new_width as int) ==> (#[trigger] final(self).col_hints_grid().cell_spec(p, c)).crossed == false,
    {
        self.width = new_width;
        self.field = self.field.resized(new_width, new_width);
        self.solution = self.solution.resized(new_width, new_width);
        let hint_len = (new_width + 1) / 2;
        self.col_hints = Grid::new(new_width, hint_len);
        self.row_hints = Grid::new(hint_len, new_width);
        let ghost mid = *self;
        proof {
            let rh = mid.row_hints_grid();
            let ch = mid.col_hints_grid();
            rh.lemma_wf_bounds();
            ch.lemma_wf_bounds();
            assert forall|r: int, p: int|
                0 <= r < new_width && 0 <= p < hint_slots(new_width as int) implies (
            #[trigger] rh.cell_spec(r, p)).crossed == false by {
                crate::grid::lemma_flat_bounds(rh.width_spec(), rh.height_spec(), r, p);
            }
            assert forall|c: int, p: int|
                0 <= c < new_width && 0 <= p < hint_slots(new_width as int) implies (
            #[trigger] ch.cell_spec(p, c)).crossed == false by {
                crate::grid::lemma_flat_bounds(ch.width_spec(), ch.height_spec(), p, c);
            }
        }
        self.generate_hints();
        proof {
            assert forall|r: int, p: int|
                0 <= r < new_width && 0 <= p < hint_slots(new_width as int) implies (
            #[trigger] self.row_hints_grid().cell_spec(r, p)).crossed == false by {
                assert(self.row_hints_grid().cell_spec(r, p).crossed
                    == mid.row_hints_grid().cell_spec(r, p).crossed);
            }
            assert forall|c: int, p: int|
                0 <= c < new_width && 0 <= p < hint_slots(new_width as int) implies (
            #[trigger] self.col_hints_grid().cell_spec(p, c)).crossed == false by {
                assert(self.col_hints_grid().cell_spec(p, c).crossed
                    == mid.col_hints_grid().cell_spec(p, c).crossed);
            }
        }
    }
}

} // verus!
