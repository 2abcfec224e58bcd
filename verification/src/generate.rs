//! Growing the maze from its start, placing the entrance and the exit, and
//! the whole generation of a map.

use vstd::prelude::*;

use crate::cell::Cell;
use crate::completion::{accessible, count, done, fillable, filled, is_pillar, measurable};
use crate::deadends::{dead_end_draws, is_room, open_at, prune_rows_by};
use crate::grid::Cells;
use crate::islands::{
    culled_by_draws, culls, is_island, island_draws, islands_of, lemma_reached_is_shut, opened_islands,
};
use crate::phases::{
    cleared, lists_room, loop_choice, loops_opened, only_loops_opened, preclose_all, preclosed_list,
    room_draws_for, room_index, wall_draws, walls_by_draws,
};
use crate::region::reaches;
use crate::rng::{random_u32_below, seed_rng};
use crate::scan::{
    count_in_column, count_in_columns, lemma_columns_bound, lemma_columns_monotone,
    lemma_count_positive,
};
use crate::walls::{
    accessible_in_columns, accessible_inside, is_wall, lemma_accessible_in_columns,
    lemma_accessible_listed, lemma_odd_walls, lemma_repaint_keeps, lemma_repaint_opened_keep, opened,
    positions, repaint, side_a, side_b, Grid,
};

verus! {

/// Cells that are not open.
pub open spec fn not_open() -> spec_fn((int, int), Cell) -> bool {
    |p: (int, int), c: Cell| c != Cell::Open
}

/// Every count of a grid with a fillable cell (neither a pillar nor
/// `ForceClosed`), and whose
/// size times 100 fits `u32`, fits the counters of `is_done`.
pub proof fn lemma_measurable(m: Grid, w: int, h: int, p: (int, int))
    requires
        0 <= w,
        0 <= h,
        w * h * 100 <= u32::MAX,
        forall|q: (int, int)| #[trigger] m.contains_key(q) <==> (0 <= q.0 < w && 0 <= q.1 < h),
        m.contains_key(p),
        !is_pillar(p),
        m[p] != Cell::ForceClosed,
    ensures
        measurable(m, w, h),
{
    lemma_columns_bound(m, w, h, fillable());
    lemma_columns_bound(m, w, h, filled());
    lemma_columns_bound(m, w, h, accessible());
    let none = |q: (int, int), c: Cell| false;
    lemma_columns_monotone(m, m, w, h, none, fillable());
    assert(fillable()((p.0, p.1), m[(p.0, p.1)]));
    assert(count_in_columns(m, w, h, none) == 0) by {
        lemma_columns_bound(m, w, h, none);
        lemma_none_count(m, w, h);
    }
}

/// Nothing satisfies the predicate that is always false.
proof fn lemma_none_count(m: Grid, x: int, h: int)
    ensures
        count_in_columns(m, x, h, |q: (int, int), c: Cell| false) == 0,
    decreases x,
{
    if x > 0 {
        lemma_none_count(m, x - 1, h);
        lemma_none_column(m, x - 1, h);
    }
}

/// Nothing in a column satisfies the predicate that is always false.
proof fn lemma_none_column(m: Grid, x: int, y: int)
    ensures
        count_in_column(m, x, y, |q: (int, int), c: Cell| false) == 0,
    decreases y,
{
    if y > 0 {
        lemma_none_column(m, x, y - 1);
    }
}

/// The Manhattan distance between two cells.
pub open spec fn distance(a: (int, int), b: (int, int)) -> int {
    (if a.0 >= b.0 { a.0 - b.0 } else { b.0 - a.0 }) + (if a.1 >= b.1 { a.1 - b.1 } else { b.1 - a.1 })
}

/// The Manhattan distance between two cells, computed in `i32`: the
/// coordinates must fit `i32` and so must the distance.
pub fn cell_dist(a: (u32, u32), b: (u32, u32)) -> (d: i32)
    requires
        a.0 <= i32::MAX,
        a.1 <= i32::MAX,
        b.0 <= i32::MAX,
        b.1 <= i32::MAX,
        distance((a.0 as int, a.1 as int), (b.0 as int, b.1 as int)) <= i32::MAX,
    ensures
        d == distance((a.0 as int, a.1 as int), (b.0 as int, b.1 as int)),
{
    let dx = a.0 as i32 - b.0 as i32;
    let dy = a.1 as i32 - b.1 as i32;
    let ax = if dx < 0 {
        -dx
    } else {
        dx
    };
    let ay = if dy < 0 {
        -dy
    } else {
        dy
    };
    ax + ay
}

/// Rooms painted `Null`.
pub open spec fn null_room() -> spec_fn((int, int), Cell) -> bool {
    |p: (int, int), c: Cell| is_room(p) && c == Cell::Null
}

/// Every accessible cell is a wall with one open cell beside it and one
/// `Null` room on the other side, as repainting leaves them.
pub open spec fn accessible_fresh(m: Grid) -> bool {
    forall|p: (int, int)|
        #[trigger] m.contains_key(p) && m[p] == Cell::Accessible ==> is_wall(p.0, p.1) && m.contains_key(
            side_a(p),
        ) && m.contains_key(side_b(p)) && ((m[side_a(p)] == Cell::Open && m[side_b(p)] == Cell::Null)
            || (m[side_a(p)] == Cell::Null && m[side_b(p)] == Cell::Open))
}

/// One step of growth from `g` to `next`: the accessible cell at index `i`
/// of `accessible_in_columns` is opened, and the walls repainted.
pub open spec fn growth_step(g: Grid, next: Grid, cols: int, rows: int, i: int) -> bool {
    let s = accessible_in_columns(g, cols, rows);
    &&& 0 <= i < s.len()
    &&& next == repaint(opened(g, s[i]))
}

/// Growth for `amount` percent goes from `g` to `next` by opening the
/// accessible cell at index `i`: `g` is not done, and the step is taken.
#[verifier::opaque]
pub open spec fn growth_link(g: Grid, next: Grid, cols: int, rows: int, amount: int, i: int) -> bool {
    !done(g, cols, rows, amount) && growth_step(g, next, cols, rows, i)
}

/// `grids` are grids that growth for `amount` percent passes through, and
/// `picks` the index opened at each step: every grid but the last is not
/// done and steps to the next.
pub open spec fn growth_prefix(grids: Seq<Grid>, picks: Seq<int>, cols: int, rows: int, amount: int) -> bool {
    &&& grids.len() == picks.len() + 1
    &&& forall|k: int|
        0 <= k < picks.len() ==> growth_link(grids[k], grids[k + 1], cols, rows, amount, #[trigger] picks[k])
}

/// `grids` are all the grids that growth for `amount` percent passes
/// through, `picks` the index opened at each step: the steps stop at the
/// first grid that is done.
pub open spec fn growth_chain(grids: Seq<Grid>, picks: Seq<int>, cols: int, rows: int, amount: int) -> bool {
    &&& growth_prefix(grids, picks, cols, rows, amount)
    &&& done(grids.last(), cols, rows, amount)
}

/// One more step extends the grids growth passes through.
proof fn lemma_growth_push(
    grids: Seq<Grid>,
    picks: Seq<int>,
    cols: int,
    rows: int,
    amount: int,
    next: Grid,
    i: int,
)
    requires
        growth_prefix(grids, picks, cols, rows, amount),
        growth_link(grids.last(), next, cols, rows, amount, i),
    ensures
        growth_prefix(grids.push(next), picks.push(i), cols, rows, amount),
        grids.push(next).last() == next,
        grids.push(next)[0] == grids[0],
{
    let g2 = grids.push(next);
    let p2 = picks.push(i);
    assert forall|k: int| 0 <= k < p2.len() implies growth_link(g2[k], g2[k + 1], cols, rows, amount, #[trigger] p2[k]) by {
        if k < picks.len() {
            assert(p2[k] == picks[k]);
            assert(g2[k] == grids[k]);
            assert(g2[k + 1] == grids[k + 1]);
        } else {
            assert(g2[k] == grids.last());
            assert(g2[k + 1] == next);
            assert(p2[k] == i);
        }
    }
}

/// Repainting a grid with no accessible cell, where every wall lies between
/// two cells of the grid, leaves its accessible cells fresh.
pub proof fn lemma_repaint_fresh(m: Grid)
    requires
        forall|p: (int, int)| #[trigger] m.contains_key(p) ==> m[p] != Cell::Accessible,
        forall|q: (int, int)|
            #[trigger] m.contains_key(q) && is_wall(q.0, q.1) ==> m.contains_key(side_a(q)) && m.contains_key(side_b(q)),
    ensures
        accessible_fresh(repaint(m)),
{
    let r = repaint(m);
    assert forall|p: (int, int)| #[trigger] r.contains_key(p) && r[p] == Cell::Accessible implies is_wall(p.0, p.1)
        && r.contains_key(side_a(p)) && r.contains_key(side_b(p)) && ((r[side_a(p)] == Cell::Open
        && r[side_b(p)] == Cell::Null) || (r[side_a(p)] == Cell::Null && r[side_b(p)] == Cell::Open)) by {
        assert(is_wall(p.0, p.1));
        assert(!is_wall(side_a(p).0, side_a(p).1));
        assert(!is_wall(side_b(p).0, side_b(p).1));
    }
}

/// A step of growth from a grid whose accessible cells are fresh keeps them
/// fresh and leaves fewer `Null` rooms.
#[verifier::rlimit(40)]
pub proof fn lemma_fresh_step(g: Grid, q: (int, int), w: int, h: int)
    requires
        accessible_fresh(g),
        g.contains_key(q),
        g[q] == Cell::Accessible,
        forall|p: (int, int)| #[trigger] g.contains_key(p) <==> (0 <= p.0 < w && 0 <= p.1 < h),
        forall|p: (int, int)|
            #[trigger] g.contains_key(p) && is_wall(p.0, p.1) ==> g.contains_key(side_a(p)) && g.contains_key(side_b(p)),
    ensures
        accessible_fresh(repaint(opened(g, q))),
        count(repaint(opened(g, q)), w, h, null_room()) < count(g, w, h, null_room()),
{
    let o = opened(g, q);
    let n = repaint(o);
    assert(o.dom() =~= g.dom());
    assert(n.dom() =~= g.dom());
    assert forall|p: (int, int)| #[trigger] n.contains_key(p) && n[p] == Cell::Accessible implies is_wall(p.0, p.1)
        && n.contains_key(side_a(p)) && n.contains_key(side_b(p)) && ((n[side_a(p)] == Cell::Open
        && n[side_b(p)] == Cell::Null) || (n[side_a(p)] == Cell::Null && n[side_b(p)] == Cell::Open)) by {
        if o[p] == Cell::Accessible {
            assert(g[p] == Cell::Accessible);
        }
        assert(is_wall(p.0, p.1));
        assert(!is_wall(side_a(p).0, side_a(p).1));
        assert(!is_wall(side_b(p).0, side_b(p).1));
    }
    let z = if g[side_a(q)] == Cell::Null {
        side_a(q)
    } else {
        side_b(q)
    };
    assert(is_room(z));
    assert(null_room()((z.0, z.1), g[(z.0, z.1)]));
    assert(!null_room()((z.0, z.1), n[(z.0, z.1)]));
    assert forall|i: int, j: int| 0 <= i < w && 0 <= j < h && null_room()((i, j), n[(i, j)]) implies null_room()(
        (i, j),
        g[(i, j)],
    ) by {
        assert(!is_wall(i, j));
    }
    lemma_columns_monotone(n, g, w, h, null_room(), null_room());
}

impl Cells {
    /// Grows the maze until it is done (see `done`) for `amount` percent:
    /// while it is not, one accessible wall picked at random is opened (see
    /// `open_wall`) and the walls are repainted. Which walls open is left to
    /// chance; whatever is drawn, the growth ends done, open cells stay open,
    /// and accessible cells stay between two cells of the grid. Returns
    /// whether it ended for want of accessible cells, and how many walls it
    /// opened: each opening turns at least one cell that was not open, so
    /// there are at most as many as there were cells not open.
    pub fn grow(&mut self, amount: u32) -> (r: (bool, u32))
        requires
            old(self).wf(),
            old(self).odd_dims(),
            accessible_inside(old(self)@),
            old(self).cols() * old(self).rows() * 100 <= u32::MAX,
            exists|p: (int, int)|
                #[trigger] old(self)@.contains_key(p) && !is_pillar(p) && old(self)@[p] != Cell::ForceClosed,
        ensures
            final(self).wf(),
            final(self).cols() == old(self).cols(),
            final(self).rows() == old(self).rows(),
            accessible_inside(final(self)@),
            done(final(self)@, final(self).cols() as int, final(self).rows() as int, amount as int),
            forall|p: (int, int)|
                #[trigger] old(self)@.contains_key(p) && old(self)@[p] == Cell::Open ==> final(self)@[p] == Cell::Open,
            r.0 == (count(final(self)@, final(self).cols() as int, final(self).rows() as int, accessible()) == 0),
            r.1 + count(final(self)@, final(self).cols() as int, final(self).rows() as int, not_open())
                <= count(old(self)@, old(self).cols() as int, old(self).rows() as int, not_open()),
            accessible_fresh(old(self)@) ==> r.1 + count(
                final(self)@,
                final(self).cols() as int,
                final(self).rows() as int,
                null_room(),
            ) <= count(old(self)@, old(self).cols() as int, old(self).rows() as int, null_room()),
            exists|grids: Seq<Grid>, picks: Seq<int>|
                #[trigger] growth_chain(grids, picks, old(self).cols() as int, old(self).rows() as int, amount as int)
                    && grids[0] == old(self)@ && grids.last() == final(self)@ && picks.len() == r.1,
    {
        let ghost m0 = self@;
        let ghost w = self.cols() as int;
        let ghost h = self.rows() as int;
        let ghost p0 = choose|p: (int, int)|
            #[trigger] m0.contains_key(p) && !is_pillar(p) && m0[p] != Cell::ForceClosed;
        proof {
            self.lemma_domain();
            lemma_measurable(m0, w, h, p0);
            lemma_columns_bound(m0, w, h, not_open());
            assert(w * h <= w * h * 100) by (nonlinear_arith)
                requires
                    0 <= w,
                    0 <= h,
            ;
        }
        let mut steps: u32 = 0;
        let ghost mut grids: Seq<Grid> = seq![m0];
        let ghost mut picks: Seq<int> = Seq::empty();
        while !self.is_done(amount)
            invariant
                self.wf(),
                self.odd_dims(),
                self.cols() == w,
                self.rows() == h,
                w * h * 100 <= u32::MAX,
                accessible_inside(self@),
                forall|q: (int, int)| #[trigger] self@.contains_key(q) <==> (0 <= q.0 < w && 0 <= q.1 < h),
                forall|q: (int, int)| #[trigger] m0.contains_key(q) <==> (0 <= q.0 < w && 0 <= q.1 < h),
                m0.contains_key(p0),
                !is_pillar(p0),
                self@[p0] != Cell::ForceClosed,
                forall|q: (int, int)|
                    #[trigger] m0.contains_key(q) && m0[q] == Cell::Open ==> self@[q] == Cell::Open,
                measurable(self@, w, h),
                count(m0, w, h, not_open()) <= u32::MAX,
                steps + count(self@, w, h, not_open()) <= count(m0, w, h, not_open()),
                accessible_fresh(m0) ==> accessible_fresh(self@) && steps + count(self@, w, h, null_room())
                    <= count(m0, w, h, null_room()),
                growth_prefix(grids, picks, w, h, amount as int),
                picks.len() == steps,
                grids[0] == m0,
                grids.last() == self@,
            decreases count(self@, w, h, not_open()),
        {
            let ghost g = self@;
            proof {
                lemma_odd_walls(g, w, h);
                assert(count(g, w, h, accessible()) > 0);
                lemma_count_positive(g, w, h, accessible());
                let (i, j) = choose|i: int, j: int| 0 <= i < w && 0 <= j < h && #[trigger] accessible()((i, j), g[(i, j)]);
                lemma_accessible_listed(g, w, h, (i, j));
                lemma_accessible_in_columns(g, w, h);
            }
            self.open_wall();
            let ghost g2 = self@;
            let ghost s = accessible_in_columns(g, w, h);
            let ghost k = choose|k: int| 0 <= k < s.len() && g2 == crate::walls::opened(g, s[k]);
            proof {
                let q = s[k];
                assert(g[q] == Cell::Accessible);
                assert(g.contains_key(q));
                lemma_repaint_opened_keep(g, q);
                lemma_odd_walls(g2, w, h);
                lemma_repaint_opened_keep(g2, q);
            }
            self.repaint_walls();
            proof {
                let q = s[k];
                assert(self@[q] == Cell::Open);
                lemma_columns_monotone(self@, g, w, h, not_open(), not_open());
                assert(not_open()((q.0, q.1), g[(q.0, q.1)]));
                assert(!not_open()((q.0, q.1), self@[(q.0, q.1)]));
                lemma_measurable(self@, w, h, p0);
                if accessible_fresh(m0) {
                    lemma_fresh_step(g, q, w, h);
                }
                assert(growth_link(g, self@, w, h, amount as int, k)) by {
                    reveal(growth_link);
                }
                lemma_growth_push(grids, picks, w, h, amount as int, self@, k);
                grids = grids.push(self@);
                picks = picks.push(k);
            }
            steps = steps + 1;
        }
        proof {
            assert(growth_chain(grids, picks, w, h, amount as int));
        }
        let c = self.completion();
        (c.accessible == 0, steps)
    }

    /// `p` is an open room of the grid.
    pub open spec fn is_open_room(&self, p: (u32, u32)) -> bool {
        &&& self@.contains_key((p.0 as int, p.1 as int))
        &&& is_room((p.0 as int, p.1 as int))
        &&& self@[(p.0 as int, p.1 as int)] == Cell::Open
    }

    /// A room drawn at random among the open ones: rooms are drawn, each
    /// coordinate uniformly below the grid's size and rounded down to even
    /// (see `room_of_draw`), until an open one comes up. The draws stop after
    /// `u64::MAX` misses, far more than any run can make, and `fallback` is
    /// given instead. Which open room comes up is left to chance; the draws
    /// made are described by `room_draws`.
    pub fn random_open_room(&self, fallback: (u32, u32)) -> (r: (u32, u32))
        requires
            self.wf(),
            self.is_open_room(fallback),
        ensures
            self.is_open_room(r),
            exists|draws: Seq<(u32, u32)>|
                #[trigger] room_draws(self@, self.cols() as int, self.rows() as int, draws, r, fallback),
    {
        proof {
            self.lemma_domain();
        }
        let virt_w = self.width();
        let virt_h = self.height();
        let rx = random_u32_below(virt_w);
        let ry = random_u32_below(virt_h);
        let mut cell = room_of_draw(rx, ry);
        let ghost mut draws: Seq<(u32, u32)> = seq![(rx, ry)];
        let mut misses: u64 = 0;
        while self.get(cell.0, cell.1) != Cell::Open && misses < u64::MAX
            invariant
                self.wf(),
                self.cols() == virt_w,
                self.rows() == virt_h,
                cell.0 < virt_w,
                cell.1 < virt_h,
                cell.0 % 2 == 0,
                cell.1 % 2 == 0,
                draws.len() == misses + 1,
                (cell.0 as int, cell.1 as int) == draw_room(draws.last()),
                forall|k: int| 0 <= k < draws.len() ==> (#[trigger] draws[k]).0 < virt_w && draws[k].1 < virt_h,
                forall|k: int| 0 <= k < draws.len() - 1 ==> !open_at(self@, draw_room(#[trigger] draws[k])),
            decreases u64::MAX - misses,
        {
            let ghost before = draws;
            let rx = random_u32_below(virt_w);
            let ry = random_u32_below(virt_h);
            proof {
                assert(!open_at(self@, draw_room(before.last())));
                draws = draws.push((rx, ry));
                assert forall|k: int| 0 <= k < draws.len() - 1 implies !open_at(self@, draw_room(#[trigger] draws[k])) by {
                    assert(draws[k] == before[k]);
                }
                assert forall|k: int| 0 <= k < draws.len() implies (#[trigger] draws[k]).0 < virt_w && draws[k].1 < virt_h by {
                    if k < before.len() {
                        assert(draws[k] == before[k]);
                    }
                }
            }
            cell = room_of_draw(rx, ry);
            misses += 1;
        }
        if self.get(cell.0, cell.1) != Cell::Open {
            cell = fallback;
        }
        proof {
            assert(room_draws(self@, self.cols() as int, self.rows() as int, draws, cell, fallback));
        }
        cell
    }

    /// Picks the entrance and the exit of a map of `w` by `h` rooms: two open
    /// rooms drawn at random (see `random_open_room`), the exit drawn again
    /// until `exit_accepted` takes it: the least distance starts at half the
    /// larger side and drops by one after each redraw (see
    /// `min_dist_after`). Whatever is drawn, the exits drawn form a list in
    /// which only the last is far enough, so that at most half the larger
    /// side redraws are made.
    pub fn pick_ends(&self, w: u32, h: u32, fallback: (u32, u32)) -> (ends: ((u32, u32), (u32, u32)))
        requires
            self.wf(),
            self.is_open_room(fallback),
            self.cols() < 0x4000_0000,
            self.rows() < 0x4000_0000,
        ensures
            self.is_open_room(ends.0),
            self.is_open_room(ends.1),
            exists|exits: Seq<(u32, u32)>|
                #[trigger] exits_drawn(exits, ends.0, w as int, h as int) && exits.last() == ends.1
                    && forall|k: int| 0 <= k < exits.len() ==> self.is_open_room(#[trigger] exits[k]),
    {
        proof {
            self.lemma_domain();
        }
        let entrance = self.random_open_room(fallback);
        let mut exit = self.random_open_room(fallback);
        let mut redraws: u32 = 0;
        let ghost mut exits: Seq<(u32, u32)> = seq![exit];
        while !exit_accepted(entrance, exit, redraws, w, h)
            invariant
                self.wf(),
                self.is_open_room(fallback),
                self.is_open_room(entrance),
                self.is_open_room(exit),
                self.cols() < 0x4000_0000,
                self.rows() < 0x4000_0000,
                forall|p: (int, int)|
                    #[trigger] self@.contains_key(p) <==> (0 <= p.0 < self.cols() && 0 <= p.1 < self.rows()),
                exits.len() == redraws + 1,
                exits.last() == exit,
                redraws <= min_dist_after(w as int, h as int, 0),
                forall|k: int| 0 <= k < exits.len() ==> self.is_open_room(#[trigger] exits[k]),
                forall|k: int|
                    0 <= k < exits.len() - 1 ==> distance(
                        (entrance.0 as int, entrance.1 as int),
                        (#[trigger] exits[k].0 as int, exits[k].1 as int),
                    ) < min_dist_after(w as int, h as int, k),
            decreases min_dist_after(w as int, h as int, 0) - redraws,
        {
            let ghost before = exits;
            exit = self.random_open_room(fallback);
            redraws = redraws + 1;
            proof {
                exits = exits.push(exit);
                assert(exits[redraws - 1] == before.last());
            }
        }
        proof {
            assert(exits_drawn(exits, (entrance.0, entrance.1), w as int, h as int));
        }
        (entrance, exit)
    }
}

/// The room a draw of `(rx, ry)` lands on: each coordinate rounded down to
/// even.
pub fn room_of_draw(rx: u32, ry: u32) -> (r: (u32, u32))
    ensures
        r.0 == rx / 2 * 2,
        r.1 == ry / 2 * 2,
        r.0 % 2 == 0,
        r.1 % 2 == 0,
        r.0 <= rx,
        r.1 <= ry,
{
    (rx / 2 * 2, ry / 2 * 2)
}

/// The room, in the grid's coordinates, that a draw of `(rx, ry)` lands on.
pub open spec fn draw_room(d: (u32, u32)) -> (int, int) {
    ((d.0 / 2 * 2) as int, (d.1 / 2 * 2) as int)
}

/// `draws` are the draws `random_open_room` made on the `cols` by `rows`
/// grid `m` before it returned `r`: each below the grid's size, every one
/// but the last landing on a room that is not open, and the last landing on
/// the open room `r`, or, after `u64::MAX` misses, on one that is not open,
/// with `fallback` returned.
pub open spec fn room_draws(
    m: Grid,
    cols: int,
    rows: int,
    draws: Seq<(u32, u32)>,
    r: (u32, u32),
    fallback: (u32, u32),
) -> bool {
    &&& draws.len() >= 1
    &&& forall|k: int| 0 <= k < draws.len() ==> (#[trigger] draws[k]).0 < cols && draws[k].1 < rows
    &&& forall|k: int| 0 <= k < draws.len() - 1 ==> !open_at(m, draw_room(#[trigger] draws[k]))
    &&& if open_at(m, draw_room(draws.last())) {
        (r.0 as int, r.1 as int) == draw_room(draws.last())
    } else {
        draws.len() == u64::MAX + 1 && r == fallback
    }
}

/// The least distance between entrance and exit after `k` redraws of the
/// exit on a map of `w` by `h` rooms: half the larger side, less `k`, and
/// not below 0.
pub open spec fn min_dist_after(w: int, h: int, k: int) -> int {
    let m = (if w > h { w } else { h }) / 2;
    if k < m {
        m - k
    } else {
        0
    }
}

/// Whether the exit drawn after `redraws` redraws lies far enough from the
/// entrance (see `min_dist_after`).
pub fn exit_accepted(entrance: (u32, u32), exit: (u32, u32), redraws: u32, w: u32, h: u32) -> (ok: bool)
    requires
        entrance.0 < 0x4000_0000,
        entrance.1 < 0x4000_0000,
        exit.0 < 0x4000_0000,
        exit.1 < 0x4000_0000,
    ensures
        ok == (distance((entrance.0 as int, entrance.1 as int), (exit.0 as int, exit.1 as int))
            >= min_dist_after(w as int, h as int, redraws as int)),
{
    let m: u32 = if w > h {
        w
    } else {
        h
    } / 2;
    let min_dist: u32 = if redraws < m {
        m - redraws
    } else {
        0
    };
    let dist = cell_dist(entrance, exit);
    dist as u32 >= min_dist
}

/// `exits` lists the exits drawn against `entrance`, in order: every one but
/// the last is closer than the least distance of its draw (see
/// `min_dist_after`), the last is not, and there are at most half the
/// larger side of the map redraws.
pub open spec fn exits_drawn(exits: Seq<(u32, u32)>, entrance: (u32, u32), w: int, h: int) -> bool {
    &&& 1 <= exits.len() <= min_dist_after(w, h, 0) + 1
    &&& forall|k: int|
        0 <= k < exits.len() - 1 ==> distance(
            (entrance.0 as int, entrance.1 as int),
            (#[trigger] exits[k].0 as int, exits[k].1 as int),
        ) < min_dist_after(w, h, k)
    &&& distance(
        (entrance.0 as int, entrance.1 as int),
        (exits.last().0 as int, exits.last().1 as int),
    ) >= min_dist_after(w, h, exits.len() - 1)
}

/// The settings of map generation.
pub struct MapConfig {
    /// Rooms across.
    pub w: u32,
    /// Rooms down.
    pub h: u32,
    /// Percent chance that a shut wall is opened into a loop.
    pub loop_density: u32,
    /// Percent chance that a small island is removed.
    pub loop_deletion_chance: u32,
    /// Largest island, in cells, that may be removed.
    pub max_island_cull: usize,
    /// Percent chance that a room is blocked before generation.
    pub chance_preclosed: u32,
    /// Least percentage of filled cells at which growth stops.
    pub completion_amount_min: u32,
    /// The percentage is drawn below this one, unless both are equal.
    pub completion_amount_max: u32,
    /// Percent chance that a tiny dead end is pruned.
    pub tiny_dead_end_deletion_rate: u32,
    /// Half the side of the square cleared around the start.
    pub blockage_radius: i32,
    /// How many times each room is drawn across.
    pub expander_w: u32,
    /// How many times each room is drawn down.
    pub expander_h: u32,
}

impl MapConfig {
    /// The settings generation can run with: at least one room each way,
    /// the grid small enough that a hundred times its size fits `u32` (the
    /// completion counters), a radius that is not negative, and the least
    /// completion not above the most.
    pub open spec fn valid(&self) -> bool {
        &&& 1 <= self.w
        &&& 1 <= self.h
        &&& (2 * self.w - 1) * (2 * self.h - 1) * 100 <= u32::MAX
        &&& 0 <= self.blockage_radius
        &&& self.completion_amount_min <= self.completion_amount_max
    }

    /// The settings of the standard map: 16 by 16 rooms.
    pub fn standard() -> (c: MapConfig)
        ensures
            c.valid(),
            c.w == 16,
            c.h == 16,
            c.loop_density == 20,
            c.loop_deletion_chance == 75,
            c.max_island_cull == 35,
            c.chance_preclosed == 20,
            c.completion_amount_min == 80,
            c.completion_amount_max == 100,
            c.tiny_dead_end_deletion_rate == 80,
            c.blockage_radius == 4,
            c.expander_w == 1,
            c.expander_h == 1,
    {
        assert((2 * 16 - 1) * (2 * 16 - 1) * 100 <= u32::MAX) by (nonlinear_arith);
        MapConfig {
            w: 16,
            h: 16,
            loop_density: 20,
            loop_deletion_chance: 75,
            max_island_cull: 35,
            chance_preclosed: 20,
            completion_amount_min: 80,
            completion_amount_max: 100,
            tiny_dead_end_deletion_rate: 80,
            blockage_radius: 4,
            expander_w: 1,
            expander_h: 1,
        }
    }
}

/// A generated map and what happened while generating it.
pub struct GeneratedMap {
    /// The map, `2w-1` by `2h-1` cells.
    pub cells: Cells,
    /// The entrance, an open room.
    pub entrance: (u32, u32),
    /// The exit, an open room.
    pub exit: (u32, u32),
    /// The room the maze grew from.
    pub start: (u32, u32),
    /// The rooms blocked before generation, in order.
    pub preclosed: Vec<(u32, u32)>,
    /// The completion, in percent, that growth ran to: drawn from
    /// `completion_amount_min` up to below `completion_amount_max`, or the
    /// minimum when both are equal.
    pub completion_amount: u32,
    /// Growth ended because no wall was accessible any more.
    pub ran_out: bool,
    /// How many walls growth opened.
    pub growth_steps: u32,
    /// The entrance and the exit are the same room.
    pub ends_coincide: bool,
}

/// A side of a grid whose size times 100 fits `u32` is below `2^30`.
proof fn lemma_side_small(a: int, b: int)
    requires
        1 <= a,
        1 <= b,
        a * b * 100 <= u32::MAX,
    ensures
        a * 100 <= u32::MAX,
        b * 100 <= u32::MAX,
{
    assert(a * 100 <= a * b * 100) by (nonlinear_arith)
        requires
            1 <= a,
            1 <= b,
    ;
    assert(b * 100 <= a * b * 100) by (nonlinear_arith)
        requires
            1 <= a,
            1 <= b,
    ;
}

/// The grid of a new map: every cell of the `cols` by `rows` grid `Null`.
pub open spec fn blank(cols: int, rows: int) -> Grid {
    Map::new(|p: (int, int)| 0 <= p.0 < cols && 0 <= p.1 < rows, |p: (int, int)| Cell::Null)
}

/// The grid growth starts from: the square of `radius` around `start`
/// cleared to `Null`, the start opened, and the walls repainted.
pub open spec fn started(pre: Grid, start: (int, int), radius: int) -> Grid {
    repaint(
        cleared(pre, start.0 - radius, start.0 + radius, start.1 - radius, start.1 + radius).insert(
            start,
            Cell::Open,
        ),
    )
}

/// `after` is what growth can leave of `before` for `amount` percent: the
/// same cells, done, with every open cell still open and accessible cells
/// between two cells of the grid, after `steps` openings, each of which
/// turned at least one cell that was not open and one `Null` room; the
/// grids in between form the chain of growth steps (see `growth_chain`).
pub open spec fn grown_from(before: Grid, after: Grid, cols: int, rows: int, amount: int, steps: int) -> bool {
    &&& after.dom() == before.dom()
    &&& steps + count(after, cols, rows, not_open()) <= count(before, cols, rows, not_open())
    &&& steps + count(after, cols, rows, null_room()) <= count(before, cols, rows, null_room())
    &&& exists|grids: Seq<Grid>, picks: Seq<int>|
        #[trigger] growth_chain(grids, picks, cols, rows, amount) && grids[0] == before && grids.last()
            == after && picks.len() == steps
    &&& done(after, cols, rows, amount)
    &&& accessible_inside(after)
    &&& forall|p: (int, int)|
        #[trigger] before.contains_key(p) && before[p] == Cell::Open ==> after[p] == Cell::Open
}

/// The first steps of a generation with `config`: the rooms `preclosed`
/// are blocked by the draws `rdr` on a new grid, giving `pre`; the area
/// around `start` is cleared, the start opened and the walls repainted; and
/// growth for `amount` percent takes `steps` steps to `grown`, running out
/// of accessible cells when `ran_out`.
#[verifier::opaque]
pub open spec fn early_steps(
    config: MapConfig,
    preclosed: Seq<(u32, u32)>,
    start: (u32, u32),
    amount: u32,
    ran_out: bool,
    steps: u32,
    pre: Grid,
    grown: Grid,
    rdr: Seq<u32>,
) -> bool {
    let cols = 2 * config.w - 1;
    let rows = 2 * config.h - 1;
    &&& pre == preclose_all(blank(cols, rows), preclosed.map_values(|r: (u32, u32)| (r.0 as int, r.1 as int)))
    &&& preclosed_list(preclosed, config.w as int, config.h as int, config.chance_preclosed as int)
    &&& room_draws_for(rdr, config.w as int, config.h as int)
    &&& forall|i: int|
        0 <= i < preclosed.len() ==> rdr[room_index(#[trigger] preclosed[i], config.w as int)]
            < config.chance_preclosed
    &&& forall|x: int, y: int|
        0 <= x < config.w && 0 <= y < config.h && rdr[y * config.w + x] < config.chance_preclosed
            ==> #[trigger] lists_room(preclosed, x, y)
    &&& grown_from(
        started(pre, (start.0 as int, start.1 as int), config.blockage_radius as int),
        grown,
        cols,
        rows,
        amount as int,
        steps as int,
    )
    &&& ran_out == (count(grown, cols, rows, accessible()) == 0)
}

/// The last steps of a generation with `config`, from the grown grid
/// `grown` and the ends `entrance` and `exit` to the final grid `fin`: the
/// walls of the draws `wd` are opened into loops, giving `loops`; of its
/// islands, those the draws `idr` cull are opened, giving `deleted`; and
/// dead ends are pruned by the draws `pdr`.
#[verifier::opaque]
pub open spec fn late_steps(
    config: MapConfig,
    grown: Grid,
    entrance: (u32, u32),
    exit: (u32, u32),
    fin: Grid,
    loops: Grid,
    deleted: Grid,
    walls: Set<(int, int)>,
    islands: Seq<Vec<(u32, u32)>>,
    culled: Set<int>,
    wd: Seq<u32>,
    idr: Seq<u32>,
    pdr: Seq<u32>,
) -> bool {
    let cols = 2 * config.w - 1;
    let rows = 2 * config.h - 1;
    &&& wall_draws(wd, grown, cols, rows)
    &&& walls == walls_by_draws(grown, cols, wd, config.loop_density as int)
    &&& loop_choice(grown, walls, config.loop_density as int)
    &&& loops == loops_opened(grown, walls)
    &&& islands_of(loops, cols, rows, islands)
    &&& island_draws(idr, islands, config.max_island_cull as int)
    &&& culled == culled_by_draws(islands, config.max_island_cull as int, idr, config.loop_deletion_chance as int)
    &&& culls(culled, islands, config.max_island_cull as int, config.loop_deletion_chance as int)
    &&& deleted == opened_islands(loops, islands, culled)
    &&& dead_end_draws(pdr, config.w as int, config.h as int)
    &&& fin == prune_rows_by(
        deleted,
        cols,
        (entrance.0 as int, entrance.1 as int),
        (exit.0 as int, exit.1 as int),
        config.w as int,
        config.h as int,
        pdr,
        config.tiny_dead_end_deletion_rate as int,
    ).0
}

/// The steps of a generation with `config` that ended in `map`, through the
/// grids `pre` (rooms blocked), `grown`, `loops` (loops opened) and
/// `deleted` (small islands removed), with the walls opened into loops, the
/// islands found and those removed, the exits drawn, and the draws of the
/// blocking, loop, island and dead-end steps.
pub open spec fn generation_steps(
    config: MapConfig,
    map: GeneratedMap,
    pre: Grid,
    grown: Grid,
    loops: Grid,
    deleted: Grid,
    walls: Set<(int, int)>,
    islands: Seq<Vec<(u32, u32)>>,
    culled: Set<int>,
    exits: Seq<(u32, u32)>,
    draws: (Seq<u32>, Seq<u32>, Seq<u32>, Seq<u32>),
) -> bool {
    &&& early_steps(
        config,
        map.preclosed@,
        map.start,
        map.completion_amount,
        map.ran_out,
        map.growth_steps,
        pre,
        grown,
        draws.0,
    )
    &&& exits_drawn(exits, map.entrance, config.w as int, config.h as int)
    &&& exits.last() == map.exit
    &&& late_steps(
        config,
        grown,
        map.entrance,
        map.exit,
        map.cells@,
        loops,
        deleted,
        walls,
        islands,
        culled,
        draws.1,
        draws.2,
        draws.3,
    )
}

/// Blocks rooms, opens the start and grows the maze: the first steps of
/// `generate_map`, up to the grown grid (see `early_steps`). Returns the
/// grid, the blocked rooms, the start, whether growth ran out, how many
/// steps it took, and the grids and draws the steps went through.
fn grow_phase(config: &MapConfig, completion_amount: u32) -> (r: (
    Cells,
    Vec<(u32, u32)>,
    (u32, u32),
    bool,
    u32,
    Ghost<(Grid, Grid, Seq<u32>)>,
))
    requires
        config.valid(),
    ensures
        r.0.wf(),
        r.0.cols() == 2 * config.w - 1,
        r.0.rows() == 2 * config.h - 1,
        r.0.is_open_room(r.2),
        r.0@ == r.5@.1,
        early_steps(*config, r.1@, r.2, completion_amount, r.3, r.4, r.5@.0, r.5@.1, r.5@.2),
{
    let w = config.w;
    let h = config.h;
    proof {
        lemma_side_small(2 * w - 1, 2 * h - 1);
    }
    let virt_w: u32 = w * 2 - 1;
    let virt_h: u32 = h * 2 - 1;
    let mut cells = Cells::new(virt_w, virt_h);
    let ghost m_new = cells@;
    proof {
        cells.lemma_domain();
    }
    let preclosed = cells.preclose_rooms(w, h, config.chance_preclosed);
    let ghost m_pre = cells@;
    let ghost rdr = choose|draws: Seq<u32>|
        #[trigger] room_draws_for(draws, w as int, h as int) && (forall|i: int|
            0 <= i < preclosed@.len() ==> draws[room_index(#[trigger] preclosed@[i], w as int)]
                < config.chance_preclosed) && forall|x: int, y: int|
            0 <= x < w && 0 <= y < h && draws[y * w + x] < config.chance_preclosed ==> #[trigger] lists_room(
                preclosed@,
                x,
                y,
            );
    let start_x = random_u32_below(w) * 2;
    let start_y = random_u32_below(h) * 2;
    cells.clear_around(start_x, start_y, config.blockage_radius);
    cells.set(start_x, start_y, Cell::Open);
    let ghost m_start = cells@;
    let ghost sp = (start_x as int, start_y as int);
    proof {
        cells.lemma_domain();
        assert forall|p: (int, int)| #[trigger] m_start.contains_key(p) implies m_start[p] != Cell::Accessible by {
            assert(m_new.contains_key(p));
            assert(m_pre[p] == m_new[p] || m_pre[p] == Cell::ForceClosed);
        }
        lemma_odd_walls(m_start, virt_w as int, virt_h as int);
        lemma_repaint_keeps(m_start);
        lemma_repaint_fresh(m_start);
    }
    cells.repaint_walls();
    let ghost m_rep = cells@;
    proof {
        lemma_odd_walls(cells@, virt_w as int, virt_h as int);
        assert(cells@.contains_key(sp) && !is_pillar(sp) && cells@[sp] == Cell::Open);
    }
    let (ran_out, growth_steps) = cells.grow(completion_amount);
    let ghost (gg, gp) = choose|grids: Seq<Grid>, picks: Seq<int>|
        #[trigger] growth_chain(grids, picks, virt_w as int, virt_h as int, completion_amount as int)
            && grids[0] == m_rep && grids.last() == cells@ && picks.len() == growth_steps;
    let ghost m_grown = cells@;
    proof {
        cells.lemma_domain();
        assert(cells.is_open_room((start_x, start_y)));
        assert(m_new =~= blank(virt_w as int, virt_h as int));
        assert(m_rep == started(m_pre, sp, config.blockage_radius as int));
        assert(m_grown.dom() =~= m_rep.dom());
        assert(grown_from(m_rep, m_grown, virt_w as int, virt_h as int, completion_amount as int, growth_steps as int));
        assert(early_steps(
            *config,
            preclosed@,
            (start_x, start_y),
            completion_amount,
            ran_out,
            growth_steps,
            m_pre,
            m_grown,
            rdr,
        )) by {
            reveal(early_steps);
        }
    }
    (cells, preclosed, (start_x, start_y), ran_out, growth_steps, Ghost((m_pre, m_grown, rdr)))
}

/// Opens loops, removes small islands and prunes dead ends: the last steps
/// of `generate_map` (see `late_steps`). Returns the grids, walls, islands
/// and draws the steps went through.
fn finish_phase(cells: &mut Cells, config: &MapConfig, entrance: (u32, u32), exit: (u32, u32)) -> (r: Ghost<
    (Grid, Grid, Set<(int, int)>, Seq<Vec<(u32, u32)>>, Set<int>, Seq<u32>, Seq<u32>, Seq<u32>),
>)
    requires
        config.valid(),
        old(cells).wf(),
        old(cells).cols() == 2 * config.w - 1,
        old(cells).rows() == 2 * config.h - 1,
        old(cells).is_open_room(entrance),
        old(cells).is_open_room(exit),
    ensures
        final(cells).wf(),
        final(cells).cols() == old(cells).cols(),
        final(cells).rows() == old(cells).rows(),
        final(cells).is_open_room(entrance),
        final(cells).is_open_room(exit),
        late_steps(
            *config,
            old(cells)@,
            entrance,
            exit,
            final(cells)@,
            r@.0,
            r@.1,
            r@.2,
            r@.3,
            r@.4,
            r@.5,
            r@.6,
            r@.7,
        ),
{
    let w = config.w;
    let h = config.h;
    let ghost virt_w = 2 * w - 1;
    let ghost virt_h = 2 * h - 1;
    let ghost m_grown = cells@;
    let ghost e0 = (entrance.0 as int, entrance.1 as int);
    let ghost e1 = (exit.0 as int, exit.1 as int);
    proof {
        cells.lemma_domain();
        lemma_odd_walls(cells@, virt_w as int, virt_h as int);
    }
    cells.add_loops(config.loop_density);
    let ghost m_loops = cells@;
    let ghost wd = choose|draws: Seq<u32>|
        #[trigger] wall_draws(draws, m_grown, virt_w as int, virt_h as int) && m_loops == loops_opened(
            m_grown,
            walls_by_draws(m_grown, virt_w as int, draws, config.loop_density as int),
        ) && loop_choice(
            m_grown,
            walls_by_draws(m_grown, virt_w as int, draws, config.loop_density as int),
            config.loop_density as int,
        );
    let ghost walls = walls_by_draws(m_grown, virt_w as int, wd, config.loop_density as int);
    proof {
        reveal(only_loops_opened);
        cells.lemma_domain();
        assert(m_grown.contains_key(e0) && m_grown.contains_key(e1));
        assert(m_loops[e0] == Cell::Open);
        assert(m_loops[e1] == Cell::Open);
    }
    let islands = cells.find_islands();
    proof {
        assert forall|i: int, j: int|
            0 <= i < islands@.len() && 0 <= j < islands@[i]@.len() implies m_loops.contains_key(
                #[trigger] positions(islands@[i]@)[j],
            ) by {
            let isl = positions(islands@[i]@);
            assert(is_island(m_loops, virt_w as int, virt_h as int, isl));
            let s = choose|s: (int, int)|
                #![trigger m_loops.contains_key(s)]
                crate::islands::shut(m_loops, s) && !crate::islands::reached_from_border(m_loops, virt_w as int, virt_h as int, s)
                    && forall|q: (int, int)| #[trigger] isl.contains(q) <==> reaches(m_loops, s, q);
            assert(isl.contains(isl[j]));
            lemma_reached_is_shut(m_loops, s, isl[j]);
        }
        assert(islands_of(m_loops, virt_w as int, virt_h as int, islands@));
    }
    cells.delete_islands(&islands, config.max_island_cull, config.loop_deletion_chance);
    let ghost m_del = cells@;
    let ghost idr = choose|draws: Seq<u32>|
        #[trigger] island_draws(draws, islands@, config.max_island_cull as int) && m_del == opened_islands(
            m_loops,
            islands@,
            culled_by_draws(islands@, config.max_island_cull as int, draws, config.loop_deletion_chance as int),
        ) && culls(
            culled_by_draws(islands@, config.max_island_cull as int, draws, config.loop_deletion_chance as int),
            islands@,
            config.max_island_cull as int,
            config.loop_deletion_chance as int,
        );
    let ghost culled = culled_by_draws(
        islands@,
        config.max_island_cull as int,
        idr,
        config.loop_deletion_chance as int,
    );
    proof {
        cells.lemma_domain();
        assert(m_loops.contains_key(e0) && m_loops.contains_key(e1));
        assert(m_del[e0] == Cell::Open);
        assert(m_del[e1] == Cell::Open);
        assert(m_del.contains_key(e0) && m_del.contains_key(e1));
    }
    cells.prune_dead_ends(w, h, entrance, exit, config.tiny_dead_end_deletion_rate);
    let ghost pdr = choose|draws: Seq<u32>|
        #[trigger] dead_end_draws(draws, w as int, h as int) && cells@ == prune_rows_by(
            m_del,
            virt_w as int,
            e0,
            e1,
            w as int,
            h as int,
            draws,
            config.tiny_dead_end_deletion_rate as int,
        ).0;
    proof {
        cells.lemma_domain();
        assert(cells@.contains_key(e0) && cells@.contains_key(e1));
        assert(late_steps(
            *config,
            m_grown,
            entrance,
            exit,
            cells@,
            m_loops,
            m_del,
            walls,
            islands@,
            culled,
            wd,
            idr,
            pdr,
        )) by {
            reveal(late_steps);
        }
    }
    Ghost((m_loops, m_del, walls, islands@, culled, wd, idr, pdr))
}

/// Generates a map with the generator seeded by `seed`: blocks rooms at
/// random, clears the area around a start room drawn at random and opens
/// it, grows the maze until it is complete enough, places the entrance and
/// the exit, opens loops, removes small islands and prunes tiny dead ends.
/// What is drawn is left to chance; whatever it is, the map is `2w-1` by
/// `2h-1` cells, the entrance, the exit and the start are open rooms, the
/// completion drawn lies between the configured least and most, and the map
/// comes out of the steps in order, each as its function states (see
/// `generation_steps`).
pub fn generate_map(config: &MapConfig, seed: u64) -> (map: GeneratedMap)
    requires
        config.valid(),
    ensures
        map.cells.wf(),
        map.cells.cols() == 2 * config.w - 1,
        map.cells.rows() == 2 * config.h - 1,
        map.cells.is_open_room(map.entrance),
        map.cells.is_open_room(map.exit),
        map.ends_coincide == (map.entrance == map.exit),
        map.start.0 % 2 == 0 && map.start.1 % 2 == 0,
        map.start.0 < map.cells.cols() && map.start.1 < map.cells.rows(),
        config.completion_amount_min <= map.completion_amount,
        config.completion_amount_min == config.completion_amount_max ==> map.completion_amount
            == config.completion_amount_min,
        config.completion_amount_min < config.completion_amount_max ==> map.completion_amount
            < config.completion_amount_max,
        exists|
            pre: Grid,
            grown: Grid,
            loops: Grid,
            deleted: Grid,
            walls: Set<(int, int)>,
            islands: Seq<Vec<(u32, u32)>>,
            culled: Set<int>,
            exits: Seq<(u32, u32)>,
            draws: (Seq<u32>, Seq<u32>, Seq<u32>, Seq<u32>),
        |
            #[trigger] generation_steps(
                *config,
                map,
                pre,
                grown,
                loops,
                deleted,
                walls,
                islands,
                culled,
                exits,
                draws,
            ),
{
    let w = config.w;
    let h = config.h;
    proof {
        lemma_side_small(2 * w - 1, 2 * h - 1);
    }
    seed_rng(seed);
    let completion_amount = if config.completion_amount_max == config.completion_amount_min {
        config.completion_amount_min
    } else {
        config.completion_amount_min + random_u32_below(
            config.completion_amount_max - config.completion_amount_min,
        )
    };
    let (cells, preclosed, start, ran_out, growth_steps, early) = grow_phase(config, completion_amount);
    let mut cells = cells;
    proof {
        cells.lemma_domain();
    }
    let (entrance, exit) = cells.pick_ends(w, h, start);
    let ghost exits = choose|exits: Seq<(u32, u32)>|
        #[trigger] exits_drawn(exits, entrance, w as int, h as int) && exits.last() == exit
            && forall|k: int| 0 <= k < exits.len() ==> cells.is_open_room(#[trigger] exits[k]);
    let late = finish_phase(&mut cells, config, entrance, exit);
    let ends_coincide = entrance.0 == exit.0 && entrance.1 == exit.1;
    let map = GeneratedMap {
        cells,
        entrance,
        exit,
        start,
        preclosed,
        completion_amount,
        ran_out,
        growth_steps,
        ends_coincide,
    };
    proof {
        assert(generation_steps(
            *config,
            map,
            early@.0,
            early@.1,
            late@.0,
            late@.1,
            late@.2,
            late@.3,
            late@.4,
            exits,
            (early@.2, late@.5, late@.6, late@.7),
        ));
    }
    map
}

} // verus!
