//! Removing short dead ends: a room with a single open side is closed off,
//! together with the wall into it, when the room it leads to has other ways
//! on.

use vstd::prelude::*;

use crate::cell::Cell;
use crate::grid::Cells;
use crate::rng::random_u32_below;
use crate::walls::Grid;

verus! {

/// `p` is an open cell of the grid.
pub open spec fn open_at(m: Grid, p: (int, int)) -> bool {
    m.contains_key(p) && m[p] == Cell::Open
}

/// 1 for true, 0 for false.
pub open spec fn one_if(b: bool) -> nat {
    if b {
        1
    } else {
        0
    }
}

/// A room: both coordinates even.
pub open spec fn is_room(p: (int, int)) -> bool {
    p.0 % 2 == 0 && p.1 % 2 == 0
}

/// How many of the four cells beside `(x, y)` are open.
pub open spec fn open_sides(m: Grid, x: int, y: int) -> nat {
    one_if(open_at(m, (x - 1, y))) + one_if(open_at(m, (x + 1, y))) + one_if(open_at(m, (x, y - 1)))
        + one_if(open_at(m, (x, y + 1)))
}

/// The grid after pruning the dead end at room `(x, y)` of a grid `w`
/// columns wide. The open side is looked for to the left, to the right,
/// above and below, in that order (below only when `y + 1 < w`); the room
/// that side leads to is counted for its open cells other than the way back
/// (the two cells diagonal to the wall and the one straight on), and when
/// more than one is open the room and the wall into it become `Closed`.
pub open spec fn pruned(m: Grid, w: int, x: int, y: int) -> Grid {
    if open_at(m, (x - 1, y)) {
        if one_if(open_at(m, (x - 2, y - 1))) + one_if(open_at(m, (x - 3, y))) + one_if(
            open_at(m, (x - 2, y + 1)),
        ) > 1 {
            m.insert((x, y), Cell::Closed).insert((x - 1, y), Cell::Closed)
        } else {
            m
        }
    } else if open_at(m, (x + 1, y)) {
        if one_if(open_at(m, (x + 2, y - 1))) + one_if(open_at(m, (x + 3, y))) + one_if(
            open_at(m, (x + 2, y + 1)),
        ) > 1 {
            m.insert((x, y), Cell::Closed).insert((x + 1, y), Cell::Closed)
        } else {
            m
        }
    } else if open_at(m, (x, y - 1)) {
        if one_if(open_at(m, (x - 1, y - 2))) + one_if(open_at(m, (x, y - 3))) + one_if(
            open_at(m, (x + 1, y - 2)),
        ) > 1 {
            m.insert((x, y), Cell::Closed).insert((x, y - 1), Cell::Closed)
        } else {
            m
        }
    } else if y + 1 < w && open_at(m, (x, y + 1)) {
        if one_if(open_at(m, (x - 1, y + 2))) + one_if(open_at(m, (x, y + 3))) + one_if(
            open_at(m, (x + 1, y + 2)),
        ) > 1 {
            m.insert((x, y), Cell::Closed).insert((x, y + 1), Cell::Closed)
        } else {
            m
        }
    } else {
        m
    }
}

/// What the pass of `prune_dead_ends` does at room `(x, y)` of a grid
/// `cols` columns wide, skipping the ends `e0` and `e1`: an open room with a
/// single open side is pruned (see `pruned`) when `pick` holds.
pub open spec fn prune_visit(
    m: Grid,
    cols: int,
    e0: (int, int),
    e1: (int, int),
    x: int,
    y: int,
    pick: bool,
) -> Grid {
    if (x, y) != e0 && (x, y) != e1 && open_at(m, (x, y)) && open_sides(m, x, y) == 1 && pick {
        pruned(m, cols, x, y)
    } else {
        m
    }
}

/// The pass along the row of rooms at `y`, from the left, one pick per
/// room visited.
pub open spec fn prune_row(
    m: Grid,
    cols: int,
    e0: (int, int),
    e1: (int, int),
    y: int,
    picks: Seq<bool>,
) -> Grid
    decreases picks.len(),
{
    if picks.len() == 0 {
        m
    } else {
        prune_visit(
            prune_row(m, cols, e0, e1, y, picks.drop_last()),
            cols,
            e0,
            e1,
            2 * (picks.len() - 1),
            y,
            picks.last(),
        )
    }
}

/// The pass over the rows of rooms from the top, one row of picks per row.
pub open spec fn prune_rows(
    m: Grid,
    cols: int,
    e0: (int, int),
    e1: (int, int),
    picks: Seq<Seq<bool>>,
) -> Grid
    decreases picks.len(),
{
    if picks.len() == 0 {
        m
    } else {
        prune_row(
            prune_rows(m, cols, e0, e1, picks.drop_last()),
            cols,
            e0,
            e1,
            2 * (picks.len() - 1),
            picks.last(),
        )
    }
}

/// `picks` has `h` rows of `w` picks; all are false when `rate` is 0, all
/// true when `rate` is 100 or more.
pub open spec fn picks_for(picks: Seq<Seq<bool>>, w: int, h: int, rate: int) -> bool {
    &&& picks.len() == h
    &&& forall|i: int| 0 <= i < h ==> #[trigger] picks[i].len() == w
    &&& rate == 0 ==> forall|i: int, j: int| 0 <= i < h && 0 <= j < w ==> !#[trigger] picks[i][j]
    &&& rate >= 100 ==> forall|i: int, j: int| 0 <= i < h && 0 <= j < w ==> #[trigger] picks[i][j]
}

/// What the pass of `prune_dead_ends_with` does at room `(x, y)` with the
/// next draw at index `k`: an open room other than the ends `e0`, `e1`
/// with a single open side takes draw `k` and is pruned when it is below
/// `rate`; returns the grid and the index of the next draw.
pub open spec fn prune_visit_by(
    m: Grid,
    cols: int,
    e0: (int, int),
    e1: (int, int),
    x: int,
    y: int,
    draws: Seq<u32>,
    rate: int,
    k: int,
) -> (Grid, int) {
    if (x, y) != e0 && (x, y) != e1 && open_at(m, (x, y)) && open_sides(m, x, y) == 1 {
        (if draws[k] < rate { pruned(m, cols, x, y) } else { m }, k + 1)
    } else {
        (m, k)
    }
}

/// The pass along the first `n` rooms of the row at `y`, from the left,
/// starting with draw `k`.
pub open spec fn prune_row_by(
    m: Grid,
    cols: int,
    e0: (int, int),
    e1: (int, int),
    y: int,
    n: int,
    draws: Seq<u32>,
    rate: int,
    k: int,
) -> (Grid, int)
    decreases n,
{
    if n <= 0 {
        (m, k)
    } else {
        let before = prune_row_by(m, cols, e0, e1, y, n - 1, draws, rate, k);
        prune_visit_by(before.0, cols, e0, e1, 2 * (n - 1), y, draws, rate, before.1)
    }
}

/// The pass over the first `rows` rows of rooms of a map `w` rooms wide,
/// from the top, starting with the first draw.
pub open spec fn prune_rows_by(
    m: Grid,
    cols: int,
    e0: (int, int),
    e1: (int, int),
    w: int,
    rows: int,
    draws: Seq<u32>,
    rate: int,
) -> (Grid, int)
    decreases rows,
{
    if rows <= 0 {
        (m, 0)
    } else {
        let before = prune_rows_by(m, cols, e0, e1, w, rows - 1, draws, rate);
        prune_row_by(before.0, cols, e0, e1, 2 * (rows - 1), w, draws, rate, before.1)
    }
}

/// `draws` holds one number below 100 for each room of a `w` by `h` map.
pub open spec fn dead_end_draws(draws: Seq<u32>, w: int, h: int) -> bool {
    &&& draws.len() == w * h
    &&& forall|k: int| 0 <= k < draws.len() ==> #[trigger] draws[k] < 100
}

/// Pruning an open room changes only the room itself and a wall beside
/// it, and only from `Open` to `Closed`.
pub proof fn lemma_pruned_changes(m: Grid, w: int, x: int, y: int)
    requires
        x % 2 == 0,
        y % 2 == 0,
        m[(x, y)] == Cell::Open,
    ensures
        forall|p: (int, int)|
            #[trigger] m.contains_key(p) && p != (x, y) && is_room(p) ==> pruned(m, w, x, y)[p] == m[p],
        forall|p: (int, int)|
            #[trigger] m.contains_key(p) ==> pruned(m, w, x, y)[p] == m[p] || (m[p] == Cell::Open
                && pruned(m, w, x, y)[p] == Cell::Closed),
{
}

impl Cells {
    /// The grid has an odd number of columns and of rows, so that every
    /// wall lies between two rooms.
    pub open spec fn odd_dims(&self) -> bool {
        self.cols() % 2 == 1 && self.rows() % 2 == 1
    }

    /// How many of the four cells beside `(x, y)` are open.
    pub fn count_open_sides(&self, x: u32, y: u32) -> (n: u32)
        requires
            self.wf(),
            x < self.cols(),
            y < self.rows(),
        ensures
            n == open_sides(self@, x as int, y as int),
    {
        proof {
            self.lemma_domain();
        }
        let w = self.width();
        let h = self.height();
        let mut num_open_sides: u32 = 0;
        if x > 0 && self.get(x - 1, y) == Cell::Open {
            num_open_sides += 1;
        }
        if x < w - 1 && self.get(x + 1, y) == Cell::Open {
            num_open_sides += 1;
        }
        if y > 0 && self.get(x, y - 1) == Cell::Open {
            num_open_sides += 1;
        }
        if y < h - 1 && self.get(x, y + 1) == Cell::Open {
            num_open_sides += 1;
        }
        num_open_sides
    }

    /// Prunes the dead end at room `(x, y)` (see `pruned`).
    pub fn prune_dead_end(&mut self, x: u32, y: u32)
        requires
            old(self).wf(),
            old(self).odd_dims(),
            x % 2 == 0,
            y % 2 == 0,
            x < old(self).cols(),
            y < old(self).rows(),
            open_sides(old(self)@, x as int, y as int) == 1,
        ensures
            final(self).wf(),
            final(self).cols() == old(self).cols(),
            final(self).rows() == old(self).rows(),
            final(self)@ == pruned(old(self)@, old(self).cols() as int, x as int, y as int),
    {
        proof {
            self.lemma_domain();
        }
        let virt_w = self.width();
        let virt_h = self.height();
        let mut open_paths: u32 = 0;
        if x > 0 && self.get(x - 1, y) == Cell::Open {
            if y > 0 && self.get(x - 2, y - 1) == Cell::Open {
                open_paths += 1;
            }
            if x > 2 && self.get(x - 3, y) == Cell::Open {
                open_paths += 1;
            }
            if y < virt_h - 1 && self.get(x - 2, y + 1) == Cell::Open {
                open_paths += 1;
            }
            if open_paths > 1 {
                self.set(x, y, Cell::Closed);
                self.set(x - 1, y, Cell::Closed);
            }
        } else if x < virt_w - 1 && self.get(x + 1, y) == Cell::Open {
            if y > 0 && self.get(x + 2, y - 1) == Cell::Open {
                open_paths += 1;
            }
            if x < virt_w - 3 && self.get(x + 3, y) == Cell::Open {
                open_paths += 1;
            }
            if y < virt_h - 1 && self.get(x + 2, y + 1) == Cell::Open {
                open_paths += 1;
            }
            if open_paths > 1 {
                self.set(x, y, Cell::Closed);
                self.set(x + 1, y, Cell::Closed);
            }
        } else if y > 0 && self.get(x, y - 1) == Cell::Open {
            if x > 0 && self.get(x - 1, y - 2) == Cell::Open {
                open_paths += 1;
            }
            if y > 2 && self.get(x, y - 3) == Cell::Open {
                open_paths += 1;
            }
            if x < virt_w - 1 && self.get(x + 1, y - 2) == Cell::Open {
                open_paths += 1;
            }
            if open_paths > 1 {
                self.set(x, y, Cell::Closed);
                self.set(x, y - 1, Cell::Closed);
            }
        } else if y < virt_w - 1 && self.get(x, y + 1) == Cell::Open {
            if x > 0 && self.get(x - 1, y + 2) == Cell::Open {
                open_paths += 1;
            }
            if y < virt_h - 3 && self.get(x, y + 3) == Cell::Open {
                open_paths += 1;
            }
            if x < virt_w - 1 && self.get(x + 1, y + 2) == Cell::Open {
                open_paths += 1;
            }
            if open_paths > 1 {
                self.set(x, y, Cell::Closed);
                self.set(x, y + 1, Cell::Closed);
            }
        }
    }

    /// Prunes tiny dead ends by the draws given: for each room of a `w` by
    /// `h` map, row by row, skipping the entrance and the exit, an open room
    /// with a single open side takes the next draw and is pruned (see
    /// `prune_dead_end`) when the draw is below `rate`. The grid ends exactly
    /// as `prune_rows_by` gives it. Whatever is drawn, cells only turn from
    /// `Open` to `Closed`, and the entrance and the exit keep their paint.
    pub fn prune_dead_ends_with(
        &mut self,
        w: u32,
        h: u32,
        entrance: (u32, u32),
        exit: (u32, u32),
        draws: &Vec<u32>,
        rate: u32,
    )
        requires
            old(self).wf(),
            old(self).odd_dims(),
            2 * w <= old(self).cols() + 1,
            2 * h <= old(self).rows() + 1,
            draws@.len() == w * h,
            forall|k: int| 0 <= k < draws@.len() ==> #[trigger] draws@[k] < 100,
        ensures
            final(self)@ == prune_rows_by(
                old(self)@,
                old(self).cols() as int,
                (entrance.0 as int, entrance.1 as int),
                (exit.0 as int, exit.1 as int),
                w as int,
                h as int,
                draws@,
                rate as int,
            ).0,
            final(self).wf(),
            final(self).cols() == old(self).cols(),
            final(self).rows() == old(self).rows(),
            exists|picks: Seq<Seq<bool>>|
                #[trigger] picks_for(picks, w as int, h as int, rate as int) && final(self)@ == prune_rows(
                    old(self)@,
                    old(self).cols() as int,
                    (entrance.0 as int, entrance.1 as int),
                    (exit.0 as int, exit.1 as int),
                    picks,
                ),
            rate == 0 ==> final(self)@ == old(self)@,
            forall|p: (int, int)|
                #[trigger] old(self)@.contains_key(p) ==> final(self)@[p] == old(self)@[p] || (old(
                    self,
                )@[p] == Cell::Open && final(self)@[p] == Cell::Closed),
            is_room((entrance.0 as int, entrance.1 as int)) && old(self)@.contains_key(
                (entrance.0 as int, entrance.1 as int),
            ) ==> final(self)@[(
                entrance.0 as int,
                entrance.1 as int,
            )] == old(self)@[(entrance.0 as int, entrance.1 as int)],
            is_room((exit.0 as int, exit.1 as int)) && old(self)@.contains_key(
                (exit.0 as int, exit.1 as int),
            ) ==> final(self)@[(exit.0 as int, exit.1 as int)]
                == old(self)@[(exit.0 as int, exit.1 as int)],
    {
        let ghost m0 = self@;
        let ghost cols = self.cols() as int;
        let ghost e0 = (entrance.0 as int, entrance.1 as int);
        let ghost e1 = (exit.0 as int, exit.1 as int);
        let ghost mut picks: Seq<Seq<bool>> = Seq::empty();
        let ghost ri = rate as int;
        let n = draws.len();
        let mut k: usize = 0;
        proof {
            self.lemma_domain();
            assert(0 * (w as int) == 0);
        }
        for yr in 0..h
            invariant
                self.wf(),
                self.odd_dims(),
                2 * w <= self.cols() + 1,
                2 * h <= self.rows() + 1,
                self.cols() == old(self).cols(),
                self.rows() == old(self).rows(),
                self.cols() <= u32::MAX,
                self.rows() <= u32::MAX,
                m0 == old(self)@,
                cols == self.cols(),
                self@.dom() == m0.dom(),
                forall|p: (int, int)|
                    #[trigger] m0.contains_key(p) <==> (0 <= p.0 < self.cols() && 0 <= p.1 < self.rows()),
                forall|p: (int, int)|
                    #[trigger] m0.contains_key(p) ==> self@[p] == m0[p] || (m0[p] == Cell::Open
                        && self@[p] == Cell::Closed),
                is_room(e0) && m0.contains_key(e0) ==> self@[e0] == m0[e0],
                e0 == (entrance.0 as int, entrance.1 as int),
                e1 == (exit.0 as int, exit.1 as int),
                is_room(e1) && m0.contains_key(e1) ==> self@[e1] == m0[e1],
                picks_for(picks, w as int, yr as int, rate as int),
                self@ == prune_rows(m0, cols, e0, e1, picks),
                rate == 0 ==> self@ == m0,
                ri == rate as int,
                n == draws@.len(),
                draws@.len() == w * h,
                forall|k: int| 0 <= k < draws@.len() ==> #[trigger] draws@[k] < 100,
                (self@, k as int) == prune_rows_by(m0, cols, e0, e1, w as int, yr as int, draws@, ri),
                k <= yr * w,
        {
            let y = yr * 2;
            let ghost mut row: Seq<bool> = Seq::empty();
            let ghost base = self@;
            let ghost bd = prune_rows_by(m0, cols, e0, e1, w as int, yr as int, draws@, ri);
            for xr in 0..w
                invariant
                    yr < h,
                    y == 2 * yr,
                    self.wf(),
                    self.odd_dims(),
                    2 * w <= self.cols() + 1,
                    2 * h <= self.rows() + 1,
                    self.cols() == old(self).cols(),
                    self.rows() == old(self).rows(),
                    self.cols() <= u32::MAX,
                    self.rows() <= u32::MAX,
                    m0 == old(self)@,
                    cols == self.cols(),
                    self@.dom() == m0.dom(),
                    forall|p: (int, int)|
                        #[trigger] m0.contains_key(p) <==> (0 <= p.0 < self.cols() && 0 <= p.1
                            < self.rows()),
                    forall|p: (int, int)|
                        #[trigger] m0.contains_key(p) ==> self@[p] == m0[p] || (m0[p] == Cell::Open
                            && self@[p] == Cell::Closed),
                    is_room(e0) && m0.contains_key(e0) ==> self@[e0] == m0[e0],
                    e0 == (entrance.0 as int, entrance.1 as int),
                    e1 == (exit.0 as int, exit.1 as int),
                    is_room(e1) && m0.contains_key(e1) ==> self@[e1] == m0[e1],
                    picks_for(picks, w as int, yr as int, rate as int),
                    base == prune_rows(m0, cols, e0, e1, picks),
                    row.len() == xr,
                    rate == 0 ==> forall|j: int| 0 <= j < xr ==> !#[trigger] row[j],
                    rate >= 100 ==> forall|j: int| 0 <= j < xr ==> #[trigger] row[j],
                    self@ == prune_row(base, cols, e0, e1, y as int, row),
                    rate == 0 ==> self@ == m0,
                    ri == rate as int,
                    n == draws@.len(),
                    draws@.len() == w * h,
                    forall|k: int| 0 <= k < draws@.len() ==> #[trigger] draws@[k] < 100,
                    bd == prune_rows_by(m0, cols, e0, e1, w as int, yr as int, draws@, ri),
                    (self@, k as int) == prune_row_by(bd.0, cols, e0, e1, y as int, xr as int, draws@, ri, bd.1),
                    k <= yr * w + xr,
            {
                let x = xr * 2;
                let ghost kg = k as int;
                proof {
                    assert(yr * w + xr < w * h) by (nonlinear_arith)
                        requires
                            xr < w,
                            yr < h,
                    ;
                }
                let ghost g = self@;
                let ghost mut pick = rate >= 100;
                let at_end = (entrance.0 == x && entrance.1 == y) || (exit.0 == x && exit.1 == y);
                if !at_end && self.get(x, y) == Cell::Open {
                    if self.count_open_sides(x, y) == 1 {
                        let draw = draws[k];
                        k = k + 1;
                        proof {
                            pick = draw < rate;
                        }
                        if draw < rate {
                            self.prune_dead_end(x, y);
                            proof {
                                lemma_pruned_changes(g, self.cols() as int, x as int, y as int);
                                if is_room(e0) && m0.contains_key(e0) {
                                    assert(g.contains_key(e0));
                                    assert(e0 != (x as int, y as int));
                                }
                                if is_room(e1) && m0.contains_key(e1) {
                                    assert(g.contains_key(e1));
                                    assert(e1 != (x as int, y as int));
                                }
                                assert(self@.dom() =~= m0.dom());
                            }
                        }
                    }
                }
                proof {
                    assert((self@, k as int) == prune_visit_by(g, cols, e0, e1, x as int, y as int, draws@, ri, kg));
                    assert(self@ == prune_visit(g, cols, e0, e1, x as int, y as int, pick));
                    let row2 = row.push(pick);
                    assert(row2.drop_last() =~= row);
                    row = row2;
                }
            }
            proof {
                let picks2 = picks.push(row);
                assert(picks2.drop_last() =~= picks);
                assert forall|i: int| 0 <= i < yr + 1 implies #[trigger] picks2[i].len() == w by {
                    if i < yr {
                        assert(picks2[i] == picks[i]);
                    }
                }
                assert forall|i: int, j: int| 0 <= i < yr + 1 && 0 <= j < w && rate == 0 implies !#[trigger] picks2[i][j] by {
                    if i < yr {
                        assert(picks2[i] == picks[i]);
                    }
                }
                assert forall|i: int, j: int| 0 <= i < yr + 1 && 0 <= j < w && rate >= 100 implies #[trigger] picks2[i][j] by {
                    if i < yr {
                        assert(picks2[i] == picks[i]);
                    }
                }
                picks = picks2;
                assert((yr + 1) * w == yr * w + w) by (nonlinear_arith);
            }
        }
        proof {
            assert(picks_for(picks, w as int, h as int, rate as int));
        }
    }

    /// Prunes tiny dead ends at random: for each room of a `w` by `h` map, a
    /// number below 100 is drawn, and those of the rooms that are open dead
    /// ends, in turn, decide (see `prune_dead_ends_with`). Which numbers come
    /// up is left to chance; the grid ends as some draws below 100 give it.
    pub fn prune_dead_ends(
        &mut self,
        w: u32,
        h: u32,
        entrance: (u32, u32),
        exit: (u32, u32),
        rate: u32,
    )
        requires
            old(self).wf(),
            old(self).odd_dims(),
            2 * w <= old(self).cols() + 1,
            2 * h <= old(self).rows() + 1,
        ensures
            exists|draws: Seq<u32>|
                #[trigger] dead_end_draws(draws, w as int, h as int) && final(self)@ == prune_rows_by(
                    old(self)@,
                    old(self).cols() as int,
                    (entrance.0 as int, entrance.1 as int),
                    (exit.0 as int, exit.1 as int),
                    w as int,
                    h as int,
                    draws,
                    rate as int,
                ).0,
            final(self).wf(),
            final(self).cols() == old(self).cols(),
            final(self).rows() == old(self).rows(),
            exists|picks: Seq<Seq<bool>>|
                #[trigger] picks_for(picks, w as int, h as int, rate as int) && final(self)@ == prune_rows(
                    old(self)@,
                    old(self).cols() as int,
                    (entrance.0 as int, entrance.1 as int),
                    (exit.0 as int, exit.1 as int),
                    picks,
                ),
            rate == 0 ==> final(self)@ == old(self)@,
            forall|p: (int, int)|
                #[trigger] old(self)@.contains_key(p) ==> final(self)@[p] == old(self)@[p] || (old(
                    self,
                )@[p] == Cell::Open && final(self)@[p] == Cell::Closed),
            is_room((entrance.0 as int, entrance.1 as int)) && old(self)@.contains_key(
                (entrance.0 as int, entrance.1 as int),
            ) ==> final(self)@[(
                entrance.0 as int,
                entrance.1 as int,
            )] == old(self)@[(entrance.0 as int, entrance.1 as int)],
            is_room((exit.0 as int, exit.1 as int)) && old(self)@.contains_key(
                (exit.0 as int, exit.1 as int),
            ) ==> final(self)@[(exit.0 as int, exit.1 as int)]
                == old(self)@[(exit.0 as int, exit.1 as int)],
    {
        let mut draws: Vec<u32> = Vec::new();
        proof {
            assert(0 * (w as int) == 0);
        }
        for y in 0..h
            invariant
                draws@.len() == y * w,
                forall|k: int| 0 <= k < draws@.len() ==> #[trigger] draws@[k] < 100,
        {
            for x in 0..w
                invariant
                    draws@.len() == y * w + x,
                    forall|k: int| 0 <= k < draws@.len() ==> #[trigger] draws@[k] < 100,
            {
                let d = random_u32_below(100);
                draws.push(d);
            }
            proof {
                assert((y + 1) * w == y * w + w) by (nonlinear_arith);
            }
        }
        proof {
            assert(h * w == w * h) by (nonlinear_arith);
        }
        self.prune_dead_ends_with(w, h, entrance, exit, &draws, rate);
        proof {
            assert(dead_end_draws(draws@, w as int, h as int));
        }
    }
}

} // verus!
