//! How far the maze has grown: the share of cells that are filled.

use vstd::prelude::*;

use crate::cell::Cell;
use crate::grid::Cells;
use crate::scan::{count_in_column, count_in_columns, lemma_column_prefix, lemma_columns_prefix};
use crate::walls::Grid;

verus! {

/// Cells with two odd coordinates are pillars and are never counted.
pub open spec fn is_pillar(p: (int, int)) -> bool {
    p.0 % 2 == 1 && p.1 % 2 == 1
}

/// Cells that could be filled: neither pillars nor force-closed.
pub open spec fn fillable() -> spec_fn((int, int), Cell) -> bool {
    |p: (int, int), c: Cell| !is_pillar(p) && c != Cell::ForceClosed
}

/// Cells that are filled: open or closed, pillars aside.
pub open spec fn filled() -> spec_fn((int, int), Cell) -> bool {
    |p: (int, int), c: Cell| !is_pillar(p) && (c == Cell::Open || c == Cell::Closed)
}

/// Cells that are accessible, pillars aside.
pub open spec fn accessible() -> spec_fn((int, int), Cell) -> bool {
    |p: (int, int), c: Cell| !is_pillar(p) && c == Cell::Accessible
}

/// The number of cells of a `w` by `h` grid for which `f` holds.
pub open spec fn count(m: Grid, w: int, h: int, f: spec_fn((int, int), Cell) -> bool) -> nat {
    count_in_columns(m, w, h, f)
}

/// The growth of a `w` by `h` grid is done when the filled cells make at
/// least `amount` percent of the fillable ones (rounding the percentage
/// down), or when no cell is accessible any more.
pub open spec fn done(m: Grid, w: int, h: int, amount: int) -> bool {
    (count(m, w, h, filled()) * 100) as int / (count(m, w, h, fillable()) as int) >= amount || count(
        m,
        w,
        h,
        accessible(),
    ) == 0
}

/// The counts of `is_done` fit its counters: at least one fillable cell,
/// at most `u32::MAX` of them, a hundred times the filled ones within
/// `u32::MAX`, and the accessible ones within `i32::MAX`.
pub open spec fn measurable(m: Grid, w: int, h: int) -> bool {
    &&& 0 < count(m, w, h, fillable()) <= u32::MAX
    &&& count(m, w, h, filled()) * 100 <= u32::MAX
    &&& count(m, w, h, accessible()) <= i32::MAX
}

/// The running count of a scan that has done the columns before `x` and
/// the first `y` cells of column `x` stays within the count of the grid.
proof fn lemma_partial_count(m: Grid, x: int, y: int, w: int, h: int, f: spec_fn((int, int), Cell) -> bool)
    requires
        0 <= x < w,
        0 <= y < h,
    ensures
        count_in_columns(m, x, h, f) + count_in_column(m, x, y + 1, f) <= count(m, w, h, f),
{
    lemma_column_prefix(m, x, y + 1, h, f);
    lemma_columns_prefix(m, x + 1, w, h, f);
}

/// The counts that decide whether the growth is done.
pub struct Completion {
    /// Open or closed cells, pillars aside.
    pub filled: u32,
    /// Cells that are neither pillars nor force-closed.
    pub fillable: u32,
    /// Accessible cells.
    pub accessible: i32,
}

impl Cells {
    /// Counts the filled, fillable and accessible cells.
    pub fn completion(&self) -> (c: Completion)
        requires
            self.wf(),
            measurable(self@, self.cols() as int, self.rows() as int),
        ensures
            c.filled == count(self@, self.cols() as int, self.rows() as int, filled()),
            c.fillable == count(self@, self.cols() as int, self.rows() as int, fillable()),
            c.accessible == count(self@, self.cols() as int, self.rows() as int, accessible()),
    {
        let ghost m = self@;
        let w = self.width();
        let h = self.height();
        let mut filled_cells: u32 = 0;
        let mut max_filled: u32 = 0;
        let mut accessible_cells: i32 = 0;
        proof {
            self.lemma_domain();
        }
        for x in 0..w
            invariant
                self.wf(),
                self.cols() == w,
                self.rows() == h,
                m == self@,
                measurable(m, w as int, h as int),
                filled_cells == count_in_columns(m, x as int, h as int, filled()),
                max_filled == count_in_columns(m, x as int, h as int, fillable()),
                accessible_cells == count_in_columns(m, x as int, h as int, accessible()),
        {
            for y in 0..h
                invariant
                    x < w,
                    self.wf(),
                    self.cols() == w,
                    self.rows() == h,
                    m == self@,
                    measurable(m, w as int, h as int),
                    filled_cells == count_in_columns(m, x as int, h as int, filled())
                        + count_in_column(m, x as int, y as int, filled()),
                    max_filled == count_in_columns(m, x as int, h as int, fillable())
                        + count_in_column(m, x as int, y as int, fillable()),
                    accessible_cells == count_in_columns(m, x as int, h as int, accessible())
                        + count_in_column(m, x as int, y as int, accessible()),
            {
                proof {
                    lemma_partial_count(m, x as int, y as int, w as int, h as int, filled());
                    lemma_partial_count(m, x as int, y as int, w as int, h as int, fillable());
                    lemma_partial_count(m, x as int, y as int, w as int, h as int, accessible());
                }
                if !(x % 2 == 1 && y % 2 == 1) {
                    let paint = self.get(x, y);
                    if paint != Cell::ForceClosed {
                        max_filled += 1;
                    }
                    if paint == Cell::Open || paint == Cell::Closed {
                        filled_cells += 1;
                    }
                    if paint == Cell::Accessible {
                        accessible_cells += 1;
                    }
                }
            }
        }
        Completion { filled: filled_cells, fillable: max_filled, accessible: accessible_cells }
    }

    /// Whether the growth is done (see `done`) for a completion of `amount`
    /// percent.
    pub fn is_done(&self, amount: u32) -> (r: bool)
        requires
            self.wf(),
            measurable(self@, self.cols() as int, self.rows() as int),
        ensures
            r == done(self@, self.cols() as int, self.rows() as int, amount as int),
    {
        let c = self.completion();
        c.filled * 100 / c.fillable >= amount || c.accessible == 0
    }
}

} // verus!
