//! Walls between rooms: repainting them after rooms open, and opening one.

use vstd::prelude::*;

use crate::cell::Cell;
use crate::grid::Cells;
use crate::rng::random_usize_below;

verus! {

/// The abstract map: the paint at each position of the grid.
pub type Grid = Map<(int, int), Cell>;

/// A wall has exactly one odd coordinate.
pub open spec fn is_wall(x: int, y: int) -> bool {
    x % 2 != y % 2
}

/// The first of the two cells beside `p`: to the left when `x` is odd,
/// above otherwise.
pub open spec fn side_a(p: (int, int)) -> (int, int) {
    if p.0 % 2 == 1 {
        (p.0 - 1, p.1)
    } else {
        (p.0, p.1 - 1)
    }
}

/// The second of the two cells beside `p`: to the right when `x` is odd,
/// below otherwise.
pub open spec fn side_b(p: (int, int)) -> (int, int) {
    if p.0 % 2 == 1 {
        (p.0 + 1, p.1)
    } else {
        (p.0, p.1 + 1)
    }
}

/// Every wall that is not open lies between two cells of the grid.
pub open spec fn shut_walls_inside(m: Grid) -> bool {
    forall|p: (int, int)|
        #[trigger] m.contains_key(p) && is_wall(p.0, p.1) && m[p] != Cell::Open ==> m.contains_key(
            side_a(p),
        ) && m.contains_key(side_b(p))
}

/// Every accessible cell lies between two cells of the grid.
pub open spec fn accessible_inside(m: Grid) -> bool {
    forall|p: (int, int)|
        #[trigger] m.contains_key(p) && m[p] == Cell::Accessible ==> m.contains_key(side_a(p))
            && m.contains_key(side_b(p))
}

/// The paint of `p` after a repaint: a wall that is not open becomes
/// `Closed` when both cells beside it are open, `Accessible` when one is open
/// and the other `Null`, and keeps its paint otherwise; other cells keep
/// theirs.
pub open spec fn repainted(m: Grid, p: (int, int)) -> Cell {
    if is_wall(p.0, p.1) && m[p] != Cell::Open {
        let a = m[side_a(p)];
        let b = m[side_b(p)];
        if a == Cell::Open && b == Cell::Open {
            Cell::Closed
        } else if (a == Cell::Null && b == Cell::Open) || (a == Cell::Open && b == Cell::Null) {
            Cell::Accessible
        } else {
            m[p]
        }
    } else {
        m[p]
    }
}

/// The whole grid after a repaint.
pub open spec fn repaint(m: Grid) -> Grid {
    Map::new(|p: (int, int)| m.contains_key(p), |p: (int, int)| repainted(m, p))
}

/// The grid after opening `p` and the two cells beside it, in that order.
pub open spec fn opened(m: Grid, p: (int, int)) -> Grid {
    m.insert(p, Cell::Open).insert(side_a(p), Cell::Open).insert(side_b(p), Cell::Open)
}

/// The accessible cells of column `x` with `y' < y`, by increasing `y'`.
pub open spec fn accessible_in_column(m: Grid, x: int, y: int) -> Seq<(int, int)>
    decreases y,
{
    if y <= 0 {
        Seq::empty()
    } else {
        let before = accessible_in_column(m, x, y - 1);
        if m[(x, y - 1)] == Cell::Accessible {
            before.push((x, y - 1))
        } else {
            before
        }
    }
}

/// The accessible cells of columns `x' < x` (rows below `h`), column by
/// column, each column by increasing `y`.
pub open spec fn accessible_in_columns(m: Grid, x: int, h: int) -> Seq<(int, int)>
    decreases x,
{
    if x <= 0 {
        Seq::empty()
    } else {
        accessible_in_columns(m, x - 1, h) + accessible_in_column(m, x - 1, h)
    }
}

/// Positions as pairs of integers.
pub open spec fn positions(v: Seq<(u32, u32)>) -> Seq<(int, int)> {
    v.map_values(|p: (u32, u32)| (p.0 as int, p.1 as int))
}

/// Each listed cell of a column is accessible and lies in the column.
pub proof fn lemma_accessible_in_column(m: Grid, x: int, y: int)
    ensures
        forall|i: int|
            0 <= i < accessible_in_column(m, x, y).len() ==> {
                let p = #[trigger] accessible_in_column(m, x, y)[i];
                &&& p.0 == x
                &&& 0 <= p.1 < y
                &&& m[p] == Cell::Accessible
            },
    decreases y,
{
    if y > 0 {
        lemma_accessible_in_column(m, x, y - 1);
    }
}

/// Each listed cell is accessible and lies in the first `x` columns.
pub proof fn lemma_accessible_in_columns(m: Grid, x: int, h: int)
    ensures
        forall|i: int|
            0 <= i < accessible_in_columns(m, x, h).len() ==> {
                let p = #[trigger] accessible_in_columns(m, x, h)[i];
                &&& 0 <= p.0 < x
                &&& 0 <= p.1 < h
                &&& m[p] == Cell::Accessible
            },
    decreases x,
{
    if x > 0 {
        lemma_accessible_in_columns(m, x - 1, h);
        lemma_accessible_in_column(m, x - 1, h);
        let a = accessible_in_columns(m, x - 1, h);
        let b = accessible_in_column(m, x - 1, h);
        assert forall|i: int| 0 <= i < (a + b).len() implies {
            let p = #[trigger] (a + b)[i];
            &&& 0 <= p.0 < x
            &&& 0 <= p.1 < h
            &&& m[p] == Cell::Accessible
        } by {
            if i >= a.len() {
                assert((a + b)[i] == b[i - a.len()]);
            }
        }
    }
}

/// An accessible cell of the first `x` columns is listed.
pub proof fn lemma_accessible_listed(m: Grid, x: int, h: int, p: (int, int))
    requires
        0 <= p.0 < x,
        0 <= p.1 < h,
        m[p] == Cell::Accessible,
    ensures
        accessible_in_columns(m, x, h).len() > 0,
    decreases x,
{
    if p.0 < x - 1 {
        lemma_accessible_listed(m, x - 1, h, p);
    } else {
        lemma_accessible_in_column_listed(m, x - 1, h, p);
    }
}

/// An accessible cell of the first `y` of column `x` is listed.
proof fn lemma_accessible_in_column_listed(m: Grid, x: int, y: int, p: (int, int))
    requires
        p.0 == x,
        0 <= p.1 < y,
        m[p] == Cell::Accessible,
    ensures
        accessible_in_column(m, x, y).len() > 0,
    decreases y,
{
    if p.1 < y - 1 {
        lemma_accessible_in_column_listed(m, x, y - 1, p);
    }
}

/// Accessible cells are all walls.
pub open spec fn accessible_only_walls(m: Grid) -> bool {
    forall|p: (int, int)| #[trigger] m.contains_key(p) && m[p] == Cell::Accessible ==> is_wall(p.0, p.1)
}

/// In a grid with an odd number of columns and of rows, every wall lies
/// between two cells of the grid.
pub proof fn lemma_odd_walls(m: Grid, w: int, h: int)
    requires
        w % 2 == 1,
        h % 2 == 1,
        forall|p: (int, int)| #[trigger] m.contains_key(p) <==> (0 <= p.0 < w && 0 <= p.1 < h),
    ensures
        forall|p: (int, int)|
            #[trigger] m.contains_key(p) && is_wall(p.0, p.1) ==> m.contains_key(side_a(p)) && m.contains_key(side_b(p)),
        shut_walls_inside(m),
        accessible_only_walls(m) ==> accessible_inside(m),
{
    assert forall|p: (int, int)|
        #[trigger] m.contains_key(p) && is_wall(p.0, p.1) implies m.contains_key(side_a(p)) && m.contains_key(side_b(p)) by {
        assert(m.contains_key(side_a(p)));
        assert(m.contains_key(side_b(p)));
    }
}

/// Repainting keeps accessible cells on walls and open cells open.
pub proof fn lemma_repaint_keeps(m: Grid)
    requires
        accessible_only_walls(m),
    ensures
        accessible_only_walls(repaint(m)),
        forall|q: (int, int)| #[trigger] m.contains_key(q) && m[q] == Cell::Open ==> repaint(m)[q] == Cell::Open,
        repaint(m).dom() == m.dom(),
{
    assert(repaint(m).dom() =~= m.dom());
}

/// Where every wall lies between two cells of the grid, repainting and
/// opening keep accessible cells between two cells of the grid, keep open
/// cells open, and paint no cell `ForceClosed`.
pub proof fn lemma_repaint_opened_keep(m: Grid, p: (int, int))
    requires
        accessible_inside(m),
        forall|q: (int, int)|
            #[trigger] m.contains_key(q) && is_wall(q.0, q.1) ==> m.contains_key(side_a(q)) && m.contains_key(side_b(q)),
        m.contains_key(p),
        m.contains_key(side_a(p)),
        m.contains_key(side_b(p)),
    ensures
        accessible_inside(repaint(m)),
        accessible_inside(opened(m, p)),
        forall|q: (int, int)| #[trigger] m.contains_key(q) && m[q] == Cell::Open ==> repaint(m)[q] == Cell::Open,
        forall|q: (int, int)| #[trigger] m.contains_key(q) && m[q] == Cell::Open ==> opened(m, p)[q] == Cell::Open,
        forall|q: (int, int)|
            #[trigger] m.contains_key(q) && m[q] != Cell::ForceClosed ==> repaint(m)[q] != Cell::ForceClosed,
        forall|q: (int, int)|
            #[trigger] m.contains_key(q) && m[q] != Cell::ForceClosed ==> opened(m, p)[q] != Cell::ForceClosed,
        opened(m, p)[p] == Cell::Open,
        opened(m, p).dom() == m.dom(),
        repaint(m).dom() == m.dom(),
{
    assert(opened(m, p).dom() =~= m.dom());
    assert(repaint(m).dom() =~= m.dom());
}

impl Cells {
    /// Repaints every wall that is not open from the two cells beside it
    /// (see `repainted`). Only walls change, and a wall's paint depends only
    /// on cells that are not walls, so the order of the scan does not matter.
    pub fn repaint_walls(&mut self)
        requires
            old(self).wf(),
            shut_walls_inside(old(self)@),
        ensures
            final(self).wf(),
            final(self).cols() == old(self).cols(),
            final(self).rows() == old(self).rows(),
            final(self)@ == repaint(old(self)@),
    {
        let ghost m0 = self@;
        let w = self.width();
        let h = self.height();
        proof {
            self.lemma_domain();
        }
        for x in 0..w
            invariant
                self.wf(),
                self.cols() == w,
                self.rows() == h,
                shut_walls_inside(m0),
                forall|i: int, j: int|
                    #![trigger m0.contains_key((i, j))]
                    m0.contains_key((i, j)) <==> (0 <= i < w && 0 <= j < h),
                self@.dom() == m0.dom(),
                forall|p: (int, int)|
                    #[trigger] m0.contains_key(p) ==> self@[p] == if p.0 < x {
                        repainted(m0, p)
                    } else {
                        m0[p]
                    },
        {
            for y in 0..h
                invariant
                    x < w,
                    self.wf(),
                    self.cols() == w,
                    self.rows() == h,
                    shut_walls_inside(m0),
                    forall|i: int, j: int|
                        #![trigger m0.contains_key((i, j))]
                        m0.contains_key((i, j)) <==> (0 <= i < w && 0 <= j < h),
                    self@.dom() == m0.dom(),
                    forall|p: (int, int)|
                        #[trigger] m0.contains_key(p) ==> self@[p] == if p.0 < x || (p.0 == x && p.1
                            < y) {
                            repainted(m0, p)
                        } else {
                            m0[p]
                        },
            {
                let ghost p = (x as int, y as int);
                assert(m0.contains_key(p));
                if x % 2 != y % 2 {
                    let self_paint = self.get(x, y);
                    if self_paint != Cell::Open {
                        assert(m0.contains_key(side_a(p)) && m0.contains_key(side_b(p)));
                        let a_paint;
                        let b_paint;
                        if x % 2 == 1 {
                            a_paint = self.get(x - 1, y);
                            b_paint = self.get(x + 1, y);
                        } else {
                            a_paint = self.get(x, y - 1);
                            b_paint = self.get(x, y + 1);
                        }
                        assert(a_paint == m0[side_a(p)]);
                        assert(b_paint == m0[side_b(p)]);
                        if a_paint == Cell::Open && b_paint == Cell::Open {
                            self.set(x, y, Cell::Closed);
                        } else if (a_paint == Cell::Null && b_paint == Cell::Open) || (a_paint
                            == Cell::Open && b_paint == Cell::Null) {
                            self.set(x, y, Cell::Accessible);
                        }
                    }
                }
            }
        }
        assert(self@ =~= repaint(m0));
    }

    /// The accessible cells of the grid, column by column (increasing `x`),
    /// each column by increasing `y`.
    pub fn accessible_walls(&self) -> (r: Vec<(u32, u32)>)
        requires
            self.wf(),
        ensures
            positions(r@) == accessible_in_columns(self@, self.cols() as int, self.rows() as int),
    {
        let mut r: Vec<(u32, u32)> = Vec::new();
        let w = self.width();
        let h = self.height();
        for x in 0..w
            invariant
                self.wf(),
                self.cols() == w,
                self.rows() == h,
                positions(r@) == accessible_in_columns(self@, x as int, h as int),
        {
            assert(accessible_in_column(self@, x as int, 0) =~= Seq::empty());
            for y in 0..h
                invariant
                    x < w,
                    self.wf(),
                    self.cols() == w,
                    self.rows() == h,
                    positions(r@) == accessible_in_columns(self@, x as int, h as int)
                        + accessible_in_column(self@, x as int, y as int),
            {
                if self.get(x, y) == Cell::Accessible {
                    let ghost before = r@;
                    r.push((x, y));
                    assert(positions(r@) =~= positions(before).push((x as int, y as int)));
                }
            }
        }
        r
    }

    /// Opens `(x, y)` and the two cells beside it.
    pub fn open_wall_at(&mut self, x: u32, y: u32)
        requires
            old(self).wf(),
            old(self)@.contains_key((x as int, y as int)),
            old(self)@.contains_key(side_a((x as int, y as int))),
            old(self)@.contains_key(side_b((x as int, y as int))),
        ensures
            final(self).wf(),
            final(self).cols() == old(self).cols(),
            final(self).rows() == old(self).rows(),
            final(self)@ == opened(old(self)@, (x as int, y as int)),
    {
        proof {
            self.lemma_domain();
        }
        self.set(x, y, Cell::Open);
        proof {
            self.lemma_domain();
        }
        if x % 2 == 1 {
            assert(self@.contains_key((x - 1, y as int)));
            assert(self@.contains_key((x + 1, y as int)));
            assert(x + 1 < self.cols());
            self.set(x - 1, y, Cell::Open);
            self.set(x + 1, y, Cell::Open);
        } else {
            assert(self@.contains_key((x as int, y - 1)));
            assert(self@.contains_key((x as int, y + 1)));
            assert(y + 1 < self.rows());
            self.set(x, y - 1, Cell::Open);
            self.set(x, y + 1, Cell::Open);
        }
    }

    /// Opens the accessible cell at index `r` of `accessible_walls` (column
    /// by column, each column by increasing `y`), together with the two
    /// cells beside it.
    pub fn open_wall_with(&mut self, r: usize)
        requires
            old(self).wf(),
            accessible_inside(old(self)@),
            r < accessible_in_columns(old(self)@, old(self).cols() as int, old(self).rows() as int).len(),
        ensures
            final(self).wf(),
            final(self).cols() == old(self).cols(),
            final(self).rows() == old(self).rows(),
            final(self)@ == opened(
                old(self)@,
                accessible_in_columns(old(self)@, old(self).cols() as int, old(self).rows() as int)[r as int],
            ),
    {
        let open_walls = self.accessible_walls();
        proof {
            self.lemma_domain();
            lemma_accessible_in_columns(self@, self.cols() as int, self.rows() as int);
        }
        let (x, y) = open_walls[r];
        let ghost s = accessible_in_columns(self@, self.cols() as int, self.rows() as int);
        assert(positions(open_walls@)[r as int] == (x as int, y as int));
        assert(s[r as int] == (x as int, y as int));
        assert(self@.contains_key((x as int, y as int)));
        assert(self@[(x as int, y as int)] == Cell::Accessible);
        self.open_wall_at(x, y);
    }

    /// Opens one accessible cell, picked at random, together with the two
    /// cells beside it; does nothing when no cell is accessible. The index
    /// drawn below the number of accessible cells is handed to
    /// `open_wall_with`; which one it is, is left to chance.
    pub fn open_wall(&mut self)
        requires
            old(self).wf(),
            accessible_inside(old(self)@),
        ensures
            final(self).wf(),
            final(self).cols() == old(self).cols(),
            final(self).rows() == old(self).rows(),
            ({
                let s = accessible_in_columns(
                    old(self)@,
                    old(self).cols() as int,
                    old(self).rows() as int,
                );
                if s.len() == 0 {
                    final(self)@ == old(self)@
                } else {
                    exists|i: int| 0 <= i < s.len() && final(self)@ == opened(old(self)@, s[i])
                }
            }),
    {
        let n = self.accessible_count();
        if n == 0 {
            return;
        }
        let i = random_usize_below(n);
        self.open_wall_with(i);
    }

    /// How many cells are accessible.
    pub fn accessible_count(&self) -> (n: usize)
        requires
            self.wf(),
        ensures
            n == accessible_in_columns(self@, self.cols() as int, self.rows() as int).len(),
    {
        let open_walls = self.accessible_walls();
        proof {
            assert(positions(open_walls@).len() == open_walls@.len());
        }
        open_walls.len()
    }
}

} // verus!
