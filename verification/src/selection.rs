//! The L-shaped selection path: the deterministic, restartable cell
//! sequence a two-point pointer gesture maps to. The first leg walks the
//! axis with the larger coordinate difference (axis 0 on a tie) from the
//! start toward the end; the second leg walks the remaining axis; the
//! corner cell is yielded exactly once.

use vstd::prelude::*;

verus! {

/// The absolute difference of two coordinates.
pub open spec fn abs_delta(a: int, b: int) -> int {
    if b >= a {
        b - a
    } else {
        a - b
    }
}

/// The coordinate `i` single steps from `a` toward `b`.
pub open spec fn step_toward(a: int, b: int, i: int) -> int {
    if b >= a {
        a + i
    } else {
        a - i
    }
}

/// Number of cells of the path: both endpoints inclusive, the corner
/// counted once.
pub open spec fn path_len(s: (int, int), e: (int, int)) -> int {
    1 + abs_delta(s.0, e.0) + abs_delta(s.1, e.1)
}

/// Cell `i` of the path from `s` to `e`: the first leg walks the axis with
/// the larger absolute difference (axis 0 on a tie), the second leg the
/// remaining axis.
pub open spec fn path_at(s: (int, int), e: (int, int), i: int) -> (int, int) {
    let d0 = abs_delta(s.0, e.0);
    let d1 = abs_delta(s.1, e.1);
    if d0 >= d1 {
        if i <= d0 {
            (step_toward(s.0, e.0, i), s.1)
        } else {
            (e.0, step_toward(s.1, e.1, i - d0))
        }
    } else {
        if i <= d1 {
            (s.0, step_toward(s.1, e.1, i))
        } else {
            (step_toward(s.0, e.0, i - d1), e.1)
        }
    }
}

/// The whole path as a sequence of cells.
pub open spec fn path_seq(s: (int, int), e: (int, int)) -> Seq<(int, int)> {
    Seq::new(path_len(s, e) as nat, |i: int| path_at(s, e, i))
}

/// Swapping start and end of a straight path yields the same cells in
/// reverse order. (A path that bends does not have this symmetry: its two
/// directions turn at different corner cells.)
pub proof fn lemma_path_symmetry(s: (int, int), e: (int, int))
    requires
        s.0 == e.0 || s.1 == e.1,
    ensures
        path_seq(e, s) == path_seq(s, e).reverse(),
{
    let n = path_len(s, e);
    assert(path_len(e, s) == n);
    assert forall|i: int| 0 <= i < n implies path_seq(e, s)[i] == path_seq(s, e).reverse()[i] by {
        assert(path_seq(s, e).reverse()[i] == path_at(s, e, n - 1 - i));
        assert(path_at(e, s, i) == path_at(s, e, n - 1 - i));
    }
    assert(path_seq(e, s) =~= path_seq(s, e).reverse());
}

/// Walks the L-shaped path between two grid coordinates, in order,
/// restartable by construction from the same two points.
pub struct SelectionPath {
    start: (i32, i32),
    end: (i32, i32),
    index: u64,
}

impl SelectionPath {
    /// The gesture's first point.
    pub closed spec fn start_spec(self) -> (int, int) {
        (self.start.0 as int, self.start.1 as int)
    }

    /// The gesture's second point.
    pub closed spec fn end_spec(self) -> (int, int) {
        (self.end.0 as int, self.end.1 as int)
    }

    /// How many cells have been yielded so far.
    pub closed spec fn index_spec(self) -> int {
        self.index as int
    }

    /// The walk never runs past the end of the path.
    pub closed spec fn wf(self) -> bool {
        0 <= self.index_spec() <= path_len(self.start_spec(), self.end_spec())
    }

    /// The bounds a well-formed walk keeps: its position lies between the
    /// path's first cell and one past its last.
    pub proof fn lemma_wf_bounds(self)
        requires
            self.wf(),
        ensures
            0 <= self.index_spec() <= path_len(self.start_spec(), self.end_spec()),
    {
    }

    /// A fresh path between two points, standing before its first cell. The
    /// points need not be ordered and may be equal.
    pub fn new(start: (i32, i32), end: (i32, i32)) -> (p: SelectionPath)
        ensures
            p.wf(),
            p.start_spec() == (start.0 as int, start.1 as int),
            p.end_spec() == (end.0 as int, end.1 as int),
            p.index_spec() == 0,
    {
        SelectionPath { start, end, index: 0 }
    }

    /// Total number of cells of the path: `1 + |Δ0| + |Δ1|`.
    pub fn len(&self) -> (n: u64)
        ensures
            n == path_len(self.start_spec(), self.end_spec()),
    {
        let d0 = abs_diff_i32(self.start.0, self.end.0);
        let d1 = abs_diff_i32(self.start.1, self.end.1);
        1 + d0 + d1
    }

    /// The next cell of the path, `None` once both legs are walked.
    pub fn next(&mut self) -> (item: Option<(i32, i32)>)
        requires
            old(self).wf(),
        ensures
            final(self).wf(),
            final(self).start_spec() == old(self).start_spec(),
            final(self).end_spec() == old(self).end_spec(),
            old(self).index_spec() >= path_len(old(self).start_spec(), old(self).end_spec())
                ==> item is None && final(self).index_spec() == old(self).index_spec(),
            old(self).index_spec() < path_len(old(self).start_spec(), old(self).end_spec()) ==> {
                &&& final(self).index_spec() == old(self).index_spec() + 1
                &&& match item {
                    Some(cell) => (cell.0 as int, cell.1 as int) == path_at(
                        old(self).start_spec(),
                        old(self).end_spec(),
                        old(self).index_spec(),
                    ),
                    None => false,
                }
            },
    {
        let d0 = abs_diff_i32(self.start.0, self.end.0);
        let d1 = abs_diff_i32(self.start.1, self.end.1);
        if self.index >= 1 + d0 + d1 {
            return None;
        }
        let i = self.index;
        self.index = i + 1;
        let ghost s = self.start_spec();
        let ghost e = self.end_spec();
        if d0 >= d1 {
            if i <= d0 {
                let row = step_i32(self.start.0, self.end.0, i);
                Some((row, self.start.1))
            } else {
                let col = step_i32(self.start.1, self.end.1, i - d0);
                Some((self.end.0, col))
            }
        } else {
            if i <= d1 {
                let col = step_i32(self.start.1, self.end.1, i);
                Some((self.start.0, col))
            } else {
                let row = step_i32(self.start.0, self.end.0, i - d1);
                Some((row, self.end.1))
            }
        }
    }
}

/// The absolute difference of two coordinates, exactly.
fn abs_diff_i32(a: i32, b: i32) -> (d: u64)
    ensures
        d == abs_delta(a as int, b as int),
{
    if b >= a {
        (b as i64 - a as i64) as u64
    } else {
        (a as i64 - b as i64) as u64
    }
}

/// The coordinate `i` single steps from `a` toward `b`; `i` must not step
/// past `b`.
fn step_i32(a: i32, b: i32, i: u64) -> (r: i32)
    requires
        i <= abs_delta(a as int, b as int),
    ensures
        r == step_toward(a as int, b as int, i as int),
{
    if b >= a {
        ((a as i64) + (i as i64)) as i32
    } else {
        ((a as i64) - (i as i64)) as i32
    }
}

} // verus!
