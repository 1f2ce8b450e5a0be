//! A dense, row-major 2D container. The height is derived from the flat
//! length and the width; the invariant `cells.len() == width * height` always
//! holds, and no dimension exceeds 65535 (the codec header stores two 16-bit
//! fields).

use vstd::prelude::*;

use crate::cell::GridItem;

verus! {

/// A row-major flat index from in-range coordinates lies within the area.
pub proof fn lemma_flat_bounds(w: int, h: int, i: int, j: int)
    by (nonlinear_arith)
    requires
        0 <= i < h,
        0 <= j < w,
    ensures
        0 <= i * w + j < w * h,
{
}

/// Two in-range coordinate pairs with the same row-major flat index are the
/// same pair.
pub proof fn lemma_flat_unique(w: int, i: int, j: int, r: int, c: int)
    by (nonlinear_arith)
    requires
        0 <= i,
        0 <= r,
        0 <= j < w,
        0 <= c < w,
        i * w + j == r * w + c,
    ensures
        i == r,
        j == c,
{
}

/// A rectangular grid of items, stored row-major in a flat vector.
#[derive(Clone, Debug)]
pub struct Grid<T> {
    width: usize,
    cells: Vec<T>,
}

impl<T> Grid<T> {
    /// Number of columns.
    pub closed spec fn width_spec(self) -> int {
        self.width as int
    }

    /// Number of rows, derived: `cells.len() / width` (0 for a zero width).
    pub closed spec fn height_spec(self) -> int {
        if self.width == 0 {
            0
        } else {
            self.cells@.len() as int / self.width as int
        }
    }

    /// The flat, row-major cell sequence.
    pub closed spec fn cells_spec(self) -> Seq<T> {
        self.cells@
    }

    /// The cell in row `row`, column `col`.
    pub open spec fn cell_spec(self, row: int, col: int) -> T {
        self.cells_spec()[row * self.width_spec() + col]
    }

    /// Structural invariant: the flat length is an exact multiple of the
    /// width and both dimensions fit in 16 bits.
    pub closed spec fn wf(self) -> bool {
        &&& self.width <= 0xFFFF
        &&& self.height_spec() <= 0xFFFF
        &&& if self.width == 0 {
            self.cells@.len() == 0
        } else {
            self.cells@.len() as int % (self.width as int) == 0
        }
    }

    /// A well-formed grid holds exactly `width * height` cells.
    pub proof fn lemma_area(self)
        requires
            self.wf(),
        ensures
            self.cells_spec().len() == self.width_spec() * self.height_spec(),
    {
        if self.width != 0 {
            let len = self.cells@.len() as int;
            let w = self.width as int;
            vstd::arithmetic::div_mod::lemma_fundamental_div_mod(len, w);
            assert(len == w * (len / w));
            assert(self.width_spec() * self.height_spec() == w * (len / w));
        } else {
            assert(self.width_spec() * self.height_spec() == 0) by (nonlinear_arith)
                requires
                    self.width_spec() == 0,
            ;
        }
    }

    /// The bounds a well-formed grid keeps: 16-bit dimensions, an exact
    /// `width * height` cell count, and no rows without a column.
    pub proof fn lemma_wf_bounds(self)
        requires
            self.wf(),
        ensures
            0 <= self.width_spec() <= 0xFFFF,
            0 <= self.height_spec() <= 0xFFFF,
            self.cells_spec().len() == self.width_spec() * self.height_spec(),
            self.width_spec() == 0 ==> self.height_spec() == 0,
    {
        self.lemma_area();
        if self.width != 0 {
            vstd::arithmetic::div_mod::lemma_div_pos_is_pos(
                self.cells@.len() as int,
                self.width as int,
            );
        }
    }

    /// A row-major index computed from in-range coordinates indexes the flat
    /// sequence.
    pub proof fn lemma_flat_index(self, row: int, col: int)
        requires
            self.wf(),
            0 <= row < self.height_spec(),
            0 <= col < self.width_spec(),
        ensures
            0 <= row * self.width_spec() + col < self.cells_spec().len(),
    {
        self.lemma_area();
        lemma_flat_bounds(self.width_spec(), self.height_spec(), row, col);
    }

    /// Number of columns.
    pub fn width(&self) -> (w: usize)
        ensures
            w == self.width_spec(),
    {
        self.width
    }

    /// Number of rows.
    pub fn height(&self) -> (h: usize)
        ensures
            h == self.height_spec(),
    {
        if self.width == 0 {
            0
        } else {
            self.cells.len() / self.width
        }
    }

    /// Number of cells (`width * height`).
    pub fn len(&self) -> (n: usize)
        ensures
            n == self.cells_spec().len(),
    {
        self.cells.len()
    }

    /// Read the cell at flat row-major position `i`.
    pub fn get_flat(&self, i: usize) -> (r: T)
        where T: Copy
        requires
            i < self.cells_spec().len(),
        ensures
            r == self.cells_spec()[i as int],
    {
        self.cells[i]
    }

    /// Read the cell at `(row, col)`. Coordinates must be pre-validated by
    /// the caller; an out-of-range access is a contract violation.
    pub fn get(&self, row: usize, col: usize) -> (r: T)
        where T: Copy
        requires
            self.wf(),
            row < self.height_spec(),
            col < self.width_spec(),
        ensures
            r == self.cell_spec(row as int, col as int),
    {
        let n = self.cells.len();
        proof {
            self.lemma_flat_index(row as int, col as int);
            assert(row * self.width_spec() + col < n);
        }
        self.cells[row * self.width + col]
    }

    /// Overwrite the cell at `(row, col)`.
    pub fn set(&mut self, row: usize, col: usize, value: T)
        requires
            old(self).wf(),
            row < old(self).height_spec(),
            col < old(self).width_spec(),
        ensures
            final(self).wf(),
            final(self).width_spec() == old(self).width_spec(),
            final(self).height_spec() == old(self).height_spec(),
            final(self).cells_spec() == old(self).cells_spec().update(
                row * old(self).width_spec() + col,
                value,
            ),
    {
        let n = self.cells.len();
        proof {
            self.lemma_flat_index(row as int, col as int);
            assert(row * self.width_spec() + col < n);
        }
        let idx = row * self.width + col;
        self.cells.set(idx, value);
    }
}

impl<T: GridItem> Grid<T> {
    /// A fresh grid of the given dimensions, every cell default-valued.
    /// With a zero width the height collapses to zero as well.
    pub fn new(width: usize, height: usize) -> (g: Grid<T>)
        requires
            width <= 0xFFFF,
            height <= 0xFFFF,
        ensures
            g.wf(),
            g.width_spec() == width,
            g.height_spec() == if width == 0 { 0int } else { height as int },
            g.cells_spec() == Seq::new(
                (width * height) as nat,
                |i: int| T::default_spec(),
            ),
    {
        proof {
            assert(width * height <= 0xFFFF * 0xFFFF) by (nonlinear_arith)
                requires
                    width <= 0xFFFF,
                    height <= 0xFFFF,
            ;
        }
        let n = width * height;
        let mut cells: Vec<T> = Vec::new();
        let mut i: usize = 0;
        while i < n
            invariant
                i <= n,
                cells@ == Seq::new(i as nat, |j: int| T::default_spec()),
            decreases n - i,
        {
            cells.push(T::default_item());
            proof {
                assert(cells@ =~= Seq::new((i + 1) as nat, |j: int| T::default_spec()));
            }
            i += 1;
        }
        let g = Grid { width, cells };
        proof {
            if width != 0 {
                assert(g.cells@.len() as int == (height as int) * (width as int))
                    by (nonlinear_arith)
                    requires
                        g.cells@.len() == width * height,
                ;
                vstd::arithmetic::div_mod::lemma_mod_multiples_basic(
                    height as int,
                    width as int,
                );
                vstd::arithmetic::div_mod::lemma_div_multiples_vanish(
                    height as int,
                    width as int,
                );
            }
        }
        g
    }

    /// Wrap a flat sequence into a grid of the given width, padding the last
    /// partial row (if any) with default items so the invariant holds. With a
    /// zero width the cells are dropped.
    pub fn from_flat(width: usize, cells: &[T]) -> (g: Grid<T>)
        requires
            width <= 0xFFFF,
            cells@.len() <= width * 0xFFFF,
        ensures
            g.wf(),
            g.width_spec() == width,
            width > 0 ==> g.height_spec() == (cells@.len() + width - 1) as int / width as int,
            width > 0 ==> g.cells_spec() == cells@ + Seq::new(
                (g.height_spec() * width - cells@.len()) as nat,
                |i: int| T::default_spec(),
            ),
            width == 0 ==> g.cells_spec() == Seq::<T>::empty(),
    {
        if width == 0 {
            return Grid { width, cells: Vec::new() };
        }
        let len = cells.len();
        let height = (len + width - 1) / width;
        proof {
            let w = width as int;
            let l = len as int;
            let q = (l + w - 1) / w;
            vstd::arithmetic::div_mod::lemma_fundamental_div_mod(l + w - 1, w);
            // q * w is within [l, l + w - 1], so the padded area covers the
            // cells and the height stays within 16 bits.
            assert(l <= q * w <= l + w - 1);
            assert(w * 0xFFFF + w == w * 65536) by (nonlinear_arith);
            assert(q * w < w * 65536);
            assert(q < 65536) by (nonlinear_arith)
                requires
                    q * w < w * 65536,
                    w > 0,
            ;
            assert(q * w <= 0xFFFF * 0xFFFF) by (nonlinear_arith)
                requires
                    0 <= q <= 0xFFFF,
                    0 <= w <= 0xFFFF,
            ;
        }
        let total = height * width;
        let mut flat: Vec<T> = Vec::new();
        let mut i: usize = 0;
        while i < len
            invariant
                i <= len,
                len == cells@.len(),
                flat@ == cells@.take(i as int),
            decreases len - i,
        {
            flat.push(cells[i]);
            proof {
                assert(flat@ =~= cells@.take(i + 1));
            }
            i += 1;
        }
        proof {
            assert(flat@ =~= cells@);
        }
        while i < total
            invariant
                len <= i <= total,
                len == cells@.len(),
                flat@ == cells@ + Seq::new((i - len) as nat, |j: int| T::default_spec()),
            decreases total - i,
        {
            flat.push(T::default_item());
            proof {
                assert(flat@ =~= cells@ + Seq::new(
                    (i + 1 - len) as nat,
                    |j: int| T::default_spec(),
                ));
            }
            i += 1;
        }
        let g = Grid { width, cells: flat };
        proof {
            assert(g.cells@.len() == height * width);
            assert(g.cells@.len() as int == (height as int) * (width as int))
                by (nonlinear_arith)
                requires
                    g.cells@.len() == height * width,
            ;
            vstd::arithmetic::div_mod::lemma_mod_multiples_basic(height as int, width as int);
            vstd::arithmetic::div_mod::lemma_div_multiples_vanish(height as int, width as int);
        }
        g
    }

    /// Wrap a flat vector whose length is exactly `width * height` into a
    /// grid of those dimensions.
    pub(crate) fn from_flat_exact(width: usize, height: usize, cells: Vec<T>) -> (g: Grid<T>)
        requires
            width <= 0xFFFF,
            height <= 0xFFFF,
            cells@.len() == width * height,
        ensures
            g.wf(),
            g.width_spec() == width,
            g.height_spec() == if width == 0 { 0int } else { height as int },
            g.cells_spec() == cells@,
    {
        let g = Grid { width, cells };
        proof {
            if width != 0 {
                assert(g.cells@.len() as int == (height as int) * (width as int))
                    by (nonlinear_arith)
                    requires
                        g.cells@.len() == width * height,
                ;
                vstd::arithmetic::div_mod::lemma_mod_multiples_basic(
                    height as int,
                    width as int,
                );
                vstd::arithmetic::div_mod::lemma_div_multiples_vanish(
                    height as int,
                    width as int,
                );
            } else {
                assert(width * height == 0) by (nonlinear_arith)
                    requires
                        width == 0,
                ;
            }
        }
        g
    }

    /// A new grid of the target dimensions, default-filled, with the
    /// overlapping top-left rectangle copied from this grid.
    pub fn resized(&self, new_width: usize, new_height: usize) -> (g: Grid<T>)
        where T: Copy
        requires
            self.wf(),
            new_width <= 0xFFFF,
            new_height <= 0xFFFF,
        ensures
            g.wf(),
            g.width_spec() == new_width,
            g.height_spec() == if new_width == 0 { 0int } else { new_height as int },
            forall|r: int, c: int|
                0 <= r < g.height_spec() && 0 <= c < g.width_spec() ==> g.cell_spec(r, c) == (
                if r < self.height_spec() && c < self.width_spec() {
                    self.cell_spec(r, c)
                } else {
                    T::default_spec()
                }),
    {
        let mut g: Grid<T> = Grid::new(new_width, new_height);
        if new_width == 0 {
            return g;
        }
        let old_h = self.height();
        let old_w = self.width;
        let copy_h = if old_h < new_height { old_h } else { new_height };
        let copy_w = if old_w < new_width { old_w } else { new_width };
        proof {
            g.lemma_area();
            assert forall|i: int, j: int|
                0 <= i < g.height_spec() && 0 <= j < g.width_spec() implies g.cell_spec(i, j)
                == T::default_spec() by {
                lemma_flat_bounds(g.width_spec(), g.height_spec(), i, j);
            }
        }
        let mut r: usize = 0;
        while r < copy_h
            invariant
                r <= copy_h,
                copy_h <= self.height_spec(),
                copy_h <= g.height_spec(),
                copy_w <= self.width_spec(),
                copy_w <= g.width_spec(),
                self.wf(),
                g.wf(),
                g.width_spec() == new_width,
                g.height_spec() == new_height,
                0 < new_width,
                forall|i: int, j: int|
                    0 <= i < g.height_spec() && 0 <= j < g.width_spec() ==> g.cell_spec(i, j)
                        == (if i < r && j < copy_w {
                        self.cell_spec(i, j)
                    } else {
                        T::default_spec()
                    }),
            decreases copy_h - r,
        {
            let mut c: usize = 0;
            while c < copy_w
                invariant
                    r < copy_h,
                    c <= copy_w,
                    copy_h <= self.height_spec(),
                    copy_h <= g.height_spec(),
                    copy_w <= self.width_spec(),
                    copy_w <= g.width_spec(),
                    self.wf(),
                    g.wf(),
                    g.width_spec() == new_width,
                    g.height_spec() == new_height,
                    0 < new_width,
                    forall|i: int, j: int|
                        0 <= i < g.height_spec() && 0 <= j < g.width_spec() ==> g.cell_spec(i, j)
                            == (if (i < r && j < copy_w) || (i == r && j < c) {
                            self.cell_spec(i, j)
                        } else {
                            T::default_spec()
                        }),
                decreases copy_w - c,
            {
                let v = self.get(r, c);
                let ghost g_before = g;
                g.set(r, c, v);
                proof {
                    let w = g.width_spec();
                    let h = g.height_spec();
                    let k = r * w + c;
                    g_before.lemma_area();
                    lemma_flat_bounds(w, h, r as int, c as int);
                    assert(0 <= k < g_before.cells_spec().len());
                    assert(g.cells_spec() == g_before.cells_spec().update(k, v));
                    assert forall|i: int, j: int|
                        0 <= i < h && 0 <= j < w implies g.cell_spec(i, j) == (
                    if (i < r && j < copy_w) || (i == r && j < c + 1) {
                        self.cell_spec(i, j)
                    } else {
                        T::default_spec()
                    }) by {
                        let m = i * w + j;
                        lemma_flat_bounds(w, h, i, j);
                        assert(0 <= m < g_before.cells_spec().len());
                        assert(g_before.cell_spec(i, j) == (if (i < r && j < copy_w) || (i == r
                            && j < c) {
                            self.cell_spec(i, j)
                        } else {
                            T::default_spec()
                        }));
                        if m == k {
                            lemma_flat_unique(w, i, j, r as int, c as int);
                            assert(g.cells_spec()[m] == v);
                        } else {
                            assert(g.cells_spec()[m] == g_before.cells_spec()[m]);
                        }
                    }
                }
                c += 1;
            }
            r += 1;
        }
        g
    }
}

impl PartialEq for Grid<u8> {
    fn eq(&self, other: &Grid<u8>) -> (r: bool) {
        if self.width != other.width {
            return false;
        }
        if self.cells.len() != other.cells.len() {
            return false;
        }
        let n = self.cells.len();
        let mut i: usize = 0;
        while i < n
            invariant
                i <= n,
                n == self.cells@.len(),
                n == other.cells@.len(),
                forall|j: int| 0 <= j < i ==> self.cells@[j] == other.cells@[j],
            decreases n - i,
        {
            if self.cells[i] != other.cells[i] {
                return false;
            }
            i += 1;
        }
        proof {
            assert(self.cells@ =~= other.cells@);
        }
        true
    }
}

impl Eq for Grid<u8> {

}

impl vstd::std_specs::cmp::PartialEqSpecImpl for Grid<u8> {
    open spec fn obeys_eq_spec() -> bool {
        true
    }

    open spec fn eq_spec(&self, other: &Grid<u8>) -> bool {
        self.width_spec() == other.width_spec() && self.cells_spec() == other.cells_spec()
    }
}

} // verus!
