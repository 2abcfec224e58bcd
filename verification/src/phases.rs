//! The steps of map generation that paint parts of the grid: blocking rooms
//! before generation, clearing the area around the start, and opening
//! shut walls into loops.

use vstd::prelude::*;

use crate::cell::Cell;
use crate::grid::Cells;
use crate::rng::random_u32_below;
use crate::walls::{is_wall, opened, side_a, side_b, shut_walls_inside, Grid};

verus! {

/// Paints `p` with `c` when `p` lies in the grid.
pub open spec fn paint_if_inside(m: Grid, p: (int, int), c: Cell) -> Grid {
    if m.contains_key(p) {
        m.insert(p, c)
    } else {
        m
    }
}

/// The grid after blocking the room at `r`: the room and each of the four
/// cells beside it that lies in the grid become `ForceClosed`.
pub open spec fn preclosed(m: Grid, r: (int, int)) -> Grid {
    let m1 = m.insert(r, Cell::ForceClosed);
    let m2 = paint_if_inside(m1, (r.0 - 1, r.1), Cell::ForceClosed);
    let m3 = paint_if_inside(m2, (r.0 + 1, r.1), Cell::ForceClosed);
    let m4 = paint_if_inside(m3, (r.0, r.1 - 1), Cell::ForceClosed);
    paint_if_inside(m4, (r.0, r.1 + 1), Cell::ForceClosed)
}

/// The grid after blocking the rooms listed, in order.
pub open spec fn preclose_all(m: Grid, rooms: Seq<(int, int)>) -> Grid
    decreases rooms.len(),
{
    if rooms.len() == 0 {
        m
    } else {
        preclosed(preclose_all(m, rooms.drop_last()), rooms.last())
    }
}

/// The list of rooms, in doubled coordinates, holds room `(x, y)`.
pub open spec fn lists_room(rooms: Seq<(u32, u32)>, x: int, y: int) -> bool {
    exists|i: int| 0 <= i < rooms.len() && #[trigger] rooms[i].0 == 2 * x && rooms[i].1 == 2 * y
}

/// `rooms` is what `preclose_rooms` can return for a `w` by `h` map: rooms
/// in doubled coordinates inside the map, in row-major order, none when
/// `chance` is 0 and every room when it is 100 or more.
pub open spec fn preclosed_list(rooms: Seq<(u32, u32)>, w: int, h: int, chance: int) -> bool {
    &&& forall|i: int|
        0 <= i < rooms.len() ==> {
            let r = #[trigger] rooms[i];
            &&& r.0 % 2 == 0
            &&& r.1 % 2 == 0
            &&& r.0 < 2 * w
            &&& r.1 < 2 * h
        }
    &&& forall|i: int, j: int|
        0 <= i < j < rooms.len() ==> row_major_before(
            (rooms[i].0 as int, rooms[i].1 as int),
            (rooms[j].0 as int, rooms[j].1 as int),
        )
    &&& chance == 0 ==> rooms.len() == 0
    &&& chance >= 100 ==> forall|x: int, y: int| 0 <= x < w && 0 <= y < h ==> #[trigger] lists_room(rooms, x, y)
}

/// Where room `r`, in doubled coordinates, of a map `w` rooms wide comes
/// when the rooms are taken row by row.
pub open spec fn room_index(r: (u32, u32), w: int) -> int {
    (r.1 / 2) as int * w + (r.0 / 2) as int
}

/// `draws` holds one number below 100 for each room of a `w` by `h` map.
pub open spec fn room_draws_for(draws: Seq<u32>, w: int, h: int) -> bool {
    &&& draws.len() == w * h
    &&& forall|k: int| 0 <= k < draws.len() ==> #[trigger] draws[k] < 100
}

/// Room `(x, y)` of a `w` by `h` map comes before the end of the rooms taken
/// row by row.
proof fn lemma_index_in_grid(x: int, y: int, w: int, h: int)
    requires
        0 <= x < w,
        0 <= y < h,
    ensures
        0 <= y * w + x < w * h,
{
    assert(0 <= y * w) by (nonlinear_arith)
        requires
            0 <= y,
            0 <= w,
    ;
    assert(y * w + x < w * h) by (nonlinear_arith)
        requires
            0 <= x < w,
            0 <= y < h,
    ;
}

/// `a` comes before `b` when scanning row by row, each row by increasing `x`.
pub open spec fn row_major_before(a: (int, int), b: (int, int)) -> bool {
    a.1 < b.1 || (a.1 == b.1 && a.0 < b.0)
}

/// The grid after painting `Null` every cell whose `x` lies between `x0`
/// and `x1` and whose `y` lies between `y0` and `y1`, bounds included.
pub open spec fn cleared(m: Grid, x0: int, x1: int, y0: int, y1: int) -> Grid {
    Map::new(
        |p: (int, int)| m.contains_key(p),
        |p: (int, int)|
            if x0 <= p.0 <= x1 && y0 <= p.1 <= y1 {
                Cell::Null
            } else {
                m[p]
            },
    )
}

/// Every cell of `cur` either keeps its paint in `m0` or is open; a wall
/// that changed was `Closed`, and both cells beside it are now open; any
/// other cell that changed lies beside a wall that was `Closed` and is now
/// open.
#[verifier::opaque]
pub open spec fn only_loops_opened(m0: Grid, cur: Grid) -> bool {
    &&& forall|p: (int, int)|
        #[trigger] m0.contains_key(p) ==> cur[p] == m0[p] || cur[p] == Cell::Open
    &&& forall|p: (int, int)|
        #[trigger] m0.contains_key(p) && is_wall(p.0, p.1) && cur[p] != m0[p] ==> m0[p]
            == Cell::Closed && cur[side_a(p)] == Cell::Open && cur[side_b(p)] == Cell::Open
    &&& forall|p: (int, int)|
        #[trigger] m0.contains_key(p) && !is_wall(p.0, p.1) && cur[p] != m0[p] ==> exists|q: (int, int)|
            #[trigger] m0.contains_key(q) && is_wall(q.0, q.1) && m0[q] == Cell::Closed && cur[q]
                == Cell::Open && (p == side_a(q) || p == side_b(q))
}

/// Opening one more wall that was `Closed` from the start keeps
/// `only_loops_opened`.
proof fn lemma_open_loop_step(m0: Grid, g: Grid, q: (int, int))
    requires
        only_loops_opened(m0, g),
        m0.contains_key(q),
        is_wall(q.0, q.1),
        m0[q] == Cell::Closed,
        g[q] == Cell::Closed,
        g.dom() == m0.dom(),
        g.contains_key(side_a(q)),
        g.contains_key(side_b(q)),
    ensures
        only_loops_opened(m0, opened(g, q)),
{
    reveal(only_loops_opened);
    let n = opened(g, q);
    assert forall|p: (int, int)|
        #[trigger] m0.contains_key(p) && !is_wall(p.0, p.1) && n[p] != m0[p] implies exists|q2: (int, int)|
        #[trigger] m0.contains_key(q2) && is_wall(q2.0, q2.1) && m0[q2] == Cell::Closed && n[q2]
            == Cell::Open && (p == side_a(q2) || p == side_b(q2)) by {
        if g[p] != m0[p] {
            let q2 = choose|q2: (int, int)|
                #[trigger] m0.contains_key(q2) && is_wall(q2.0, q2.1) && m0[q2] == Cell::Closed
                    && g[q2] == Cell::Open && (p == side_a(q2) || p == side_b(q2));
            assert(n[q2] == Cell::Open);
        } else {
            assert(p == side_a(q) || p == side_b(q));
            assert(n[q] == Cell::Open);
        }
    }
}

/// The grid with each wall of `chosen` and the two cells beside it painted
/// `Open`.
pub open spec fn loops_opened(m: Grid, chosen: Set<(int, int)>) -> Grid {
    Map::new(
        |p: (int, int)| m.contains_key(p),
        |p: (int, int)|
            if exists|q: (int, int)|
                #[trigger] chosen.contains(q) && (p == q || p == side_a(q) || p == side_b(q)) {
                Cell::Open
            } else {
                m[p]
            },
    )
}

/// `chosen` holds walls of `m` that are `Closed`: none when `density` is 0,
/// every one of them when it is 100 or more.
pub open spec fn loop_choice(m: Grid, chosen: Set<(int, int)>, density: int) -> bool {
    &&& forall|q: (int, int)|
        #[trigger] chosen.contains(q) ==> m.contains_key(q) && is_wall(q.0, q.1) && m[q] == Cell::Closed
    &&& density == 0 ==> chosen == Set::<(int, int)>::empty()
    &&& density >= 100 ==> forall|q: (int, int)|
        #[trigger] m.contains_key(q) && is_wall(q.0, q.1) && m[q] == Cell::Closed ==> chosen.contains(q)
}

/// Opening one more wall, with the cells beside it in the grid, gives the
/// grid of the chosen set with that wall added.
proof fn lemma_loops_opened_insert(m: Grid, chosen: Set<(int, int)>, q: (int, int))
    requires
        m.contains_key(q),
        m.contains_key(side_a(q)),
        m.contains_key(side_b(q)),
    ensures
        opened(loops_opened(m, chosen), q) == loops_opened(m, chosen.insert(q)),
{
    let c2 = chosen.insert(q);
    let a = opened(loops_opened(m, chosen), q);
    let b = loops_opened(m, c2);
    assert forall|p: (int, int)| #[trigger] b.contains_key(p) implies a[p] == b[p] by {
        if p == q || p == side_a(q) || p == side_b(q) {
            assert(c2.contains(q));
        } else if exists|q2: (int, int)|
            #[trigger] c2.contains(q2) && (p == q2 || p == side_a(q2) || p == side_b(q2)) {
            let q2 = choose|q2: (int, int)|
                #[trigger] c2.contains(q2) && (p == q2 || p == side_a(q2) || p == side_b(q2));
            assert(chosen.contains(q2));
        } else {
            assert forall|q2: (int, int)|
                #[trigger] chosen.contains(q2) implies !(p == q2 || p == side_a(q2) || p == side_b(q2)) by {
                assert(c2.contains(q2));
            }
        }
    }
    assert(a =~= b);
}

/// `p` is a wall of `m` painted `Closed`.
pub open spec fn closed_wall_at(m: Grid, p: (int, int)) -> bool {
    m.contains_key(p) && is_wall(p.0, p.1) && m[p] == Cell::Closed
}

/// How many cells `(x', y)` with `x' < x` are `Closed` walls.
pub open spec fn closed_in_row(m: Grid, y: int, x: int) -> int
    decreases x,
{
    if x <= 0 {
        0
    } else {
        closed_in_row(m, y, x - 1) + if closed_wall_at(m, (x - 1, y)) {
            1int
        } else {
            0int
        }
    }
}

/// How many cells of the rows `y' < y`, `w` cells wide, are `Closed` walls.
pub open spec fn closed_in_rows(m: Grid, w: int, y: int) -> int
    decreases y,
{
    if y <= 0 {
        0
    } else {
        closed_in_rows(m, w, y - 1) + closed_in_row(m, y - 1, w)
    }
}

/// How many `Closed` walls come before `p` in a scan row by row of a grid
/// `w` cells wide.
pub open spec fn wall_rank(m: Grid, w: int, p: (int, int)) -> int {
    closed_in_rows(m, w, p.1) + closed_in_row(m, p.1, p.0)
}

/// The walls the draws open: the `Closed` wall of rank `k` takes the `k`-th
/// draw and is opened when it is below `density`.
pub open spec fn walls_by_draws(m: Grid, w: int, draws: Seq<u32>, density: int) -> Set<(int, int)> {
    Set::new(|p: (int, int)| closed_wall_at(m, p) && draws[wall_rank(m, w, p)] < density)
}

/// `draws` holds one number below 100 for each `Closed` wall of the `w` by
/// `h` grid `m`.
pub open spec fn wall_draws(draws: Seq<u32>, m: Grid, w: int, h: int) -> bool {
    &&& draws.len() == closed_in_rows(m, w, h)
    &&& forall|k: int| 0 <= k < draws.len() ==> #[trigger] draws[k] < 100
}

/// A longer part of a row counts at least as many `Closed` walls.
proof fn lemma_row_mono(m: Grid, y: int, x1: int, x2: int)
    requires
        0 <= x1 <= x2,
    ensures
        0 <= closed_in_row(m, y, x1) <= closed_in_row(m, y, x2),
    decreases x2,
{
    if x2 > x1 {
        lemma_row_mono(m, y, x1, x2 - 1);
    } else if x1 > 0 {
        lemma_row_mono(m, y, x1 - 1, x1 - 1);
    }
}

/// More rows count at least as many `Closed` walls.
proof fn lemma_rows_mono(m: Grid, w: int, y1: int, y2: int)
    requires
        0 <= y1 <= y2,
        0 <= w,
    ensures
        0 <= closed_in_rows(m, w, y1) <= closed_in_rows(m, w, y2),
    decreases y2,
{
    if y2 > y1 {
        lemma_rows_mono(m, w, y1, y2 - 1);
        lemma_row_mono(m, y2 - 1, 0, w);
    } else if y1 > 0 {
        lemma_rows_mono(m, w, y1 - 1, y1 - 1);
        lemma_row_mono(m, y1 - 1, 0, w);
    }
}

/// The rank of a cell of the grid, plus one when it is a `Closed` wall, is
/// at most the number of `Closed` walls.
proof fn lemma_rank_bound(m: Grid, w: int, h: int, x: int, y: int)
    requires
        0 <= x < w,
        0 <= y < h,
    ensures
        0 <= wall_rank(m, w, (x, y)),
        wall_rank(m, w, (x, y)) + (if closed_wall_at(m, (x, y)) { 1int } else { 0int }) <= closed_in_rows(m, w, h),
{
    lemma_row_mono(m, y, x + 1, w);
    lemma_row_mono(m, y, 0, x);
    lemma_rows_mono(m, w, y + 1, h);
    lemma_rows_mono(m, w, 0, y);
}

impl Cells {
    /// Blocks room `(2x, 2y)`: it and the cells beside it that lie in the
    /// grid become `ForceClosed`.
    pub fn preclose_room(&mut self, x: u32, y: u32)
        requires
            old(self).wf(),
            2 * x < old(self).cols(),
            2 * y < old(self).rows(),
        ensures
            final(self).wf(),
            final(self).cols() == old(self).cols(),
            final(self).rows() == old(self).rows(),
            final(self)@ == preclosed(old(self)@, (2 * x as int, 2 * y as int)),
    {
        proof {
            self.lemma_domain();
        }
        self.set(x * 2, y * 2, Cell::ForceClosed);
        if x > 0 && self.contains(x * 2 - 1, y * 2) {
            self.set(x * 2 - 1, y * 2, Cell::ForceClosed);
        }
        if self.contains(x * 2 + 1, y * 2) {
            self.set(x * 2 + 1, y * 2, Cell::ForceClosed);
        }
        if y > 0 && self.contains(x * 2, y * 2 - 1) {
            self.set(x * 2, y * 2 - 1, Cell::ForceClosed);
        }
        if self.contains(x * 2, y * 2 + 1) {
            self.set(x * 2, y * 2 + 1, Cell::ForceClosed);
        }
        proof {
            let r = (2 * x as int, 2 * y as int);
            if x == 0 {
                assert(!old(self)@.contains_key((r.0 - 1, r.1)));
            }
            if y == 0 {
                assert(!old(self)@.contains_key((r.0, r.1 - 1)));
            }
        }
    }

    /// Blocks rooms by the draws given: room `(x, y)` of the `w` by `h`
    /// rooms, taken row by row, takes draw `y * w + x` and is blocked (see
    /// `preclose_room`) when the draw is below `chance`. Returns the blocked
    /// rooms, in doubled coordinates, in the order they were blocked, and the
    /// grid is exactly the one that blocking them gives.
    pub fn preclose_rooms_with(&mut self, w: u32, h: u32, draws: &Vec<u32>, chance: u32) -> (rooms: Vec<(u32, u32)>)
        requires
            old(self).wf(),
            2 * w <= old(self).cols() + 1,
            2 * h <= old(self).rows() + 1,
            draws@.len() == w * h,
            forall|k: int| 0 <= k < draws@.len() ==> #[trigger] draws@[k] < 100,
        ensures
            final(self).wf(),
            final(self).cols() == old(self).cols(),
            final(self).rows() == old(self).rows(),
            final(self)@ == preclose_all(
                old(self)@,
                rooms@.map_values(|r: (u32, u32)| (r.0 as int, r.1 as int)),
            ),
            forall|i: int|
                0 <= i < rooms@.len() ==> {
                    let r = #[trigger] rooms@[i];
                    &&& r.0 % 2 == 0
                    &&& r.1 % 2 == 0
                    &&& r.0 < 2 * w
                    &&& r.1 < 2 * h
                },
            forall|i: int, j: int|
                0 <= i < j < rooms@.len() ==> row_major_before(
                    (rooms@[i].0 as int, rooms@[i].1 as int),
                    (rooms@[j].0 as int, rooms@[j].1 as int),
                ),
            forall|p: (int, int)|
                #[trigger] old(self)@.contains_key(p) ==> final(self)@[p] == old(self)@[p]
                    || final(self)@[p] == Cell::ForceClosed,
            chance == 0 ==> rooms@.len() == 0,
            chance >= 100 ==> forall|x: int, y: int|
                0 <= x < w && 0 <= y < h ==> #[trigger] lists_room(rooms@, x, y),
            forall|i: int| 0 <= i < rooms@.len() ==> draws@[room_index(#[trigger] rooms@[i], w as int)] < chance,
            forall|x: int, y: int|
                0 <= x < w && 0 <= y < h && draws@[y * w + x] < chance ==> #[trigger] lists_room(rooms@, x, y),
    {
        let ghost m0 = self@;
        let mut rooms: Vec<(u32, u32)> = Vec::new();
        let mut k: usize = 0;
        let n = draws.len();
        proof {
            self.lemma_domain();
            assert(0 * (w as int) == 0);
        }
        for y in 0..h
            invariant
                self.wf(),
                2 * w <= self.cols() + 1,
                2 * h <= self.rows() + 1,
                self.cols() == old(self).cols(),
                self.rows() == old(self).rows(),
                self.cols() <= u32::MAX,
                self.rows() <= u32::MAX,
                forall|p: (int, int)|
                    #[trigger] m0.contains_key(p) <==> (0 <= p.0 < self.cols() && 0 <= p.1 < self.rows()),
                m0 == old(self)@,
                self@ == preclose_all(m0, rooms@.map_values(|r: (u32, u32)| (r.0 as int, r.1 as int))),
                self@.dom() == m0.dom(),
                forall|i: int|
                    0 <= i < rooms@.len() ==> {
                        let r = #[trigger] rooms@[i];
                        &&& r.0 % 2 == 0
                        &&& r.1 % 2 == 0
                        &&& r.0 < 2 * w
                        &&& r.1 < 2 * y
                    },
                forall|i: int, j: int|
                    0 <= i < j < rooms@.len() ==> row_major_before(
                        (rooms@[i].0 as int, rooms@[i].1 as int),
                        (rooms@[j].0 as int, rooms@[j].1 as int),
                    ),
                forall|p: (int, int)|
                    #[trigger] m0.contains_key(p) ==> self@[p] == m0[p] || self@[p] == Cell::ForceClosed,
                chance == 0 ==> rooms@.len() == 0,
                chance >= 100 ==> forall|x2: int, y2: int|
                    0 <= x2 < w && 0 <= y2 < y ==> #[trigger] lists_room(rooms@, x2, y2),
                draws@.len() == w * h,
                draws@.len() == n,
                forall|k: int| 0 <= k < draws@.len() ==> #[trigger] draws@[k] < 100,
                k == y * w,
                y <= h,
                forall|i: int| 0 <= i < rooms@.len() ==> draws@[room_index(#[trigger] rooms@[i], w as int)] < chance,
                forall|x2: int, y2: int|
                    0 <= x2 < w && 0 <= y2 < y && draws@[y2 * w + x2] < chance ==> #[trigger] lists_room(
                        rooms@,
                        x2,
                        y2,
                    ),
        {
            for x in 0..w
                invariant
                    y < h,
                    self.wf(),
                    2 * w <= self.cols() + 1,
                    2 * h <= self.rows() + 1,
                    self.cols() == old(self).cols(),
                    self.rows() == old(self).rows(),
                    self.cols() <= u32::MAX,
                    self.rows() <= u32::MAX,
                    forall|p: (int, int)|
                        #[trigger] m0.contains_key(p) <==> (0 <= p.0 < self.cols() && 0 <= p.1 < self.rows()),
                    m0 == old(self)@,
                    self@ == preclose_all(m0, rooms@.map_values(|r: (u32, u32)| (r.0 as int, r.1 as int))),
                    self@.dom() == m0.dom(),
                    forall|i: int|
                        0 <= i < rooms@.len() ==> {
                            let r = #[trigger] rooms@[i];
                            &&& r.0 % 2 == 0
                            &&& r.1 % 2 == 0
                            &&& r.0 < 2 * w
                            &&& (r.1 < 2 * y || (r.1 == 2 * y && r.0 < 2 * x))
                        },
                    forall|i: int, j: int|
                        0 <= i < j < rooms@.len() ==> row_major_before(
                            (rooms@[i].0 as int, rooms@[i].1 as int),
                            (rooms@[j].0 as int, rooms@[j].1 as int),
                        ),
                    forall|p: (int, int)|
                        #[trigger] m0.contains_key(p) ==> self@[p] == m0[p] || self@[p]
                            == Cell::ForceClosed,
                    chance == 0 ==> rooms@.len() == 0,
                    chance >= 100 ==> forall|x2: int, y2: int|
                        0 <= x2 < w && (0 <= y2 < y || (y2 == y && x2 < x)) ==> #[trigger] lists_room(
                            rooms@,
                            x2,
                            y2,
                        ),
                    draws@.len() == w * h,
                    draws@.len() == n,
                    forall|k: int| 0 <= k < draws@.len() ==> #[trigger] draws@[k] < 100,
                    k == y * w + x,
                    forall|i: int| 0 <= i < rooms@.len() ==> draws@[room_index(#[trigger] rooms@[i], w as int)] < chance,
                    forall|x2: int, y2: int|
                        0 <= x2 < w && (0 <= y2 < y || (y2 == y && x2 < x)) && draws@[y2 * w + x2] < chance
                            ==> #[trigger] lists_room(rooms@, x2, y2),
            {
                proof {
                    lemma_index_in_grid(x as int, y as int, w as int, h as int);
                }
                if draws[k] < chance {
                    let ghost before = rooms@;
                    let ghost g0 = self@;
                    self.preclose_room(x, y);
                    rooms.push((x * 2, y * 2));
                    proof {
                        let f = |r: (u32, u32)| (r.0 as int, r.1 as int);
                        assert(rooms@.map_values(f).drop_last() =~= before.map_values(f));
                        assert(rooms@.map_values(f).last() == (2 * x as int, 2 * y as int));
                        self.lemma_domain();
                        assert(self@.dom() =~= m0.dom());
                        assert forall|x2: int, y2: int| #[trigger] lists_room(before, x2, y2) implies lists_room(
                            rooms@,
                            x2,
                            y2,
                        ) by {
                            let i = choose|i: int|
                                0 <= i < before.len() && #[trigger] before[i].0 == 2 * x2 && before[i].1 == 2 * y2;
                            assert(rooms@[i] == before[i]);
                        }
                        assert(rooms@[before.len() as int].0 == 2 * x && rooms@[before.len() as int].1 == 2 * y);
                        assert(lists_room(rooms@, x as int, y as int));
                        assert(room_index(rooms@[before.len() as int], w as int) == y * w + x);
                        assert forall|i: int| 0 <= i < rooms@.len() implies draws@[room_index(
                            #[trigger] rooms@[i],
                            w as int,
                        )] < chance by {
                            if i < before.len() {
                                assert(rooms@[i] == before[i]);
                            }
                        }
                        assert forall|x2: int, y2: int|
                            0 <= x2 < w && (0 <= y2 < y || (y2 == y && x2 < x + 1)) && draws@[y2 * w + x2]
                                < chance implies #[trigger] lists_room(rooms@, x2, y2) by {
                            if !(x2 == x && y2 == y) {
                                assert(lists_room(before, x2, y2));
                            }
                        }
                        if chance >= 100 {
                            assert forall|x2: int, y2: int|
                                0 <= x2 < w && (0 <= y2 < y || (y2 == y && x2 < x + 1)) implies #[trigger] lists_room(
                                rooms@,
                                x2,
                                y2,
                            ) by {
                                if !(x2 == x && y2 == y) {
                                    assert(lists_room(before, x2, y2));
                                }
                            }
                        }
                    }
                }
                k = k + 1;
            }
            proof {
                assert((y + 1) * w == y * w + w) by (nonlinear_arith);
            }
        }
        rooms
    }

    /// Blocks rooms at random before generation: for each of the `w` by `h`
    /// rooms, row by row, a number below 100 is drawn (see
    /// `preclose_rooms_with`). Which numbers come up is left to chance; the
    /// rooms and grid are those some draws below 100 give: no room is blocked
    /// when `chance` is 0, and every room when it is 100 or more.
    pub fn preclose_rooms(&mut self, w: u32, h: u32, chance: u32) -> (rooms: Vec<(u32, u32)>)
        requires
            old(self).wf(),
            2 * w <= old(self).cols() + 1,
            2 * h <= old(self).rows() + 1,
        ensures
            final(self).wf(),
            final(self).cols() == old(self).cols(),
            final(self).rows() == old(self).rows(),
            final(self)@ == preclose_all(
                old(self)@,
                rooms@.map_values(|r: (u32, u32)| (r.0 as int, r.1 as int)),
            ),
            preclosed_list(rooms@, w as int, h as int, chance as int),
            forall|p: (int, int)|
                #[trigger] old(self)@.contains_key(p) ==> final(self)@[p] == old(self)@[p]
                    || final(self)@[p] == Cell::ForceClosed,
            exists|draws: Seq<u32>|
                #[trigger] room_draws_for(draws, w as int, h as int) && (forall|i: int|
                    0 <= i < rooms@.len() ==> draws[room_index(#[trigger] rooms@[i], w as int)] < chance)
                    && forall|x: int, y: int|
                    0 <= x < w && 0 <= y < h && draws[y * w + x] < chance ==> #[trigger] lists_room(rooms@, x, y),
    {
        let mut draws: Vec<u32> = Vec::new();
        proof {
            assert(0 * (w as int) == 0);
        }
        for y in 0..h
            invariant
                draws@.len() == y * w,
                forall|k: int| 0 <= k < draws@.len() ==> #[trigger] draws@[k] < 100,
        {
            for x in 0..w
                invariant
                    draws@.len() == y * w + x,
                    forall|k: int| 0 <= k < draws@.len() ==> #[trigger] draws@[k] < 100,
            {
                let d = random_u32_below(100);
                draws.push(d);
            }
            proof {
                assert((y + 1) * w == y * w + w) by (nonlinear_arith);
            }
        }
        proof {
            assert(h * w == w * h) by (nonlinear_arith);
        }
        let rooms = self.preclose_rooms_with(w, h, &draws, chance);
        proof {
            assert(room_draws_for(draws@, w as int, h as int));
        }
        rooms
    }

    /// Paints `Null` every cell within `radius` of `(sx, sy)` in both
    /// coordinates (a square clipped to the grid).
    pub fn clear_around(&mut self, sx: u32, sy: u32, radius: i32)
        requires
            old(self).wf(),
            sx < old(self).cols(),
            sy < old(self).rows(),
            sx <= i32::MAX,
            sy <= i32::MAX,
            0 <= radius,
            sx + radius <= u32::MAX,
            sy + radius <= u32::MAX,
        ensures
            final(self).wf(),
            final(self).cols() == old(self).cols(),
            final(self).rows() == old(self).rows(),
            final(self)@ == cleared(
                old(self)@,
                sx - radius,
                sx + radius,
                sy - radius,
                sy + radius,
            ),
    {
        let ghost m0 = self@;
        proof {
            self.lemma_domain();
        }
        let w = self.width();
        let h = self.height();
        let lx = sx as i32 - radius;
        let x0: u32 = if lx > 0 {
            lx as u32
        } else {
            0
        };
        let x1: u32 = if w - 1 < sx + radius as u32 {
            w - 1
        } else {
            sx + radius as u32
        };
        let ly = sy as i32 - radius;
        let y0: u32 = if ly > 0 {
            ly as u32
        } else {
            0
        };
        let y1: u32 = if h - 1 < sy + radius as u32 {
            h - 1
        } else {
            sy + radius as u32
        };
        let mut x = x0;
        while x <= x1
            invariant
                self.wf(),
                self.cols() == w,
                self.rows() == h,
                x0 <= x <= x1 + 1,
                x1 < w,
                y1 < h,
                y0 <= y1,
                w <= u32::MAX,
                h <= u32::MAX,
                forall|p: (int, int)|
                    #[trigger] m0.contains_key(p) <==> (0 <= p.0 < w && 0 <= p.1 < h),
                x0 == if sx - radius > 0 { sx - radius } else { 0 },
                x1 == if w - 1 < sx + radius { w - 1 } else { sx + radius },
                y0 == if sy - radius > 0 { sy - radius } else { 0 },
                y1 == if h - 1 < sy + radius { h - 1 } else { sy + radius },
                self@ == cleared(m0, x0 as int, x - 1, y0 as int, y1 as int),
            decreases x1 + 1 - x,
        {
            let mut y = y0;
            while y <= y1
                invariant
                    self.wf(),
                    self.cols() == w,
                    self.rows() == h,
                    x0 <= x <= x1,
                    y0 <= y <= y1 + 1,
                    x1 < w,
                    y1 < h,
                    w <= u32::MAX,
                    h <= u32::MAX,
                    forall|p: (int, int)|
                        #[trigger] m0.contains_key(p) <==> (0 <= p.0 < w && 0 <= p.1 < h),
                    forall|p: (int, int)|
                        #[trigger] m0.contains_key(p) <==> self@.contains_key(p),
                    forall|p: (int, int)|
                        #[trigger] m0.contains_key(p) ==> self@[p] == if (x0 <= p.0 < x && y0 <= p.1 <= y1)
                            || (p.0 == x && y0 <= p.1 < y) {
                            Cell::Null
                        } else {
                            m0[p]
                        },
                decreases y1 + 1 - y,
            {
                self.set(x, y, Cell::Null);
                proof {
                    self.lemma_domain();
                }
                y = y + 1;
            }
            assert(y == y1 + 1);
            assert forall|p: (int, int)| #[trigger] self@.contains_key(p) implies self@[p] == cleared(
                m0,
                x0 as int,
                x as int,
                y0 as int,
                y1 as int,
            )[p] by {
                assert(m0.contains_key(p));
            }
            assert(self@ =~= cleared(m0, x0 as int, x as int, y0 as int, y1 as int));
            x = x + 1;
        }
        assert(self@ =~= cleared(m0, sx - radius, sx + radius, sy - radius, sy + radius));
    }

    /// Opens shut walls into loops by the draws given: the `k`-th wall met
    /// `Closed` in a scan row by row (see `wall_rank`) takes the `k`-th draw
    /// and is opened, together with the two cells beside it, when the draw is
    /// below `density`. The grid ends as `loops_opened` gives it for exactly
    /// the walls of `walls_by_draws`.
    pub fn add_loops_with(&mut self, draws: &Vec<u32>, density: u32)
        requires
            old(self).wf(),
            shut_walls_inside(old(self)@),
            draws@.len() == closed_in_rows(old(self)@, old(self).cols() as int, old(self).rows() as int),
            forall|k: int| 0 <= k < draws@.len() ==> #[trigger] draws@[k] < 100,
        ensures
            final(self)@ == loops_opened(
                old(self)@,
                walls_by_draws(old(self)@, old(self).cols() as int, draws@, density as int),
            ),
            loop_choice(
                old(self)@,
                walls_by_draws(old(self)@, old(self).cols() as int, draws@, density as int),
                density as int,
            ),
            final(self).wf(),
            final(self).cols() == old(self).cols(),
            final(self).rows() == old(self).rows(),
            exists|chosen: Set<(int, int)>|
                #[trigger] loop_choice(old(self)@, chosen, density as int) && final(self)@
                    == loops_opened(old(self)@, chosen),
            density == 0 ==> final(self)@ == old(self)@,
            density >= 100 ==> forall|p: (int, int)|
                #[trigger] old(self)@.contains_key(p) && is_wall(p.0, p.1) && old(self)@[p]
                    == Cell::Closed ==> final(self)@[p] == Cell::Open,
            only_loops_opened(old(self)@, final(self)@),
    {
        let ghost m0 = self@;
        let ghost mut chosen: Set<(int, int)> = Set::empty();
        let ghost di = density as int;
        proof {
            self.lemma_domain();
            reveal(only_loops_opened);
            assert(self@ =~= loops_opened(m0, chosen));
        }
        let w = self.width();
        let h = self.height();
        let n = draws.len();
        let mut k: usize = 0;
        for y in 0..h
            invariant
                self.wf(),
                self.cols() == w,
                self.rows() == h,
                w <= u32::MAX,
                h <= u32::MAX,
                m0 == old(self)@,
                shut_walls_inside(m0),
                forall|p: (int, int)|
                    #[trigger] m0.contains_key(p) <==> (0 <= p.0 < w && 0 <= p.1 < h),
                self@.dom() == m0.dom(),
                forall|p: (int, int)|
                    #[trigger] m0.contains_key(p) && is_wall(p.0, p.1) && p.1 >= y ==> self@[p]
                        == m0[p],
                only_loops_opened(m0, self@),
                forall|q: (int, int)|
                    #[trigger] chosen.contains(q) ==> m0.contains_key(q) && is_wall(q.0, q.1) && m0[q]
                        == Cell::Closed && q.1 < y,
                density == 0 ==> chosen == Set::<(int, int)>::empty(),
                density >= 100 ==> forall|q: (int, int)|
                    #[trigger] m0.contains_key(q) && is_wall(q.0, q.1) && m0[q] == Cell::Closed && q.1
                        < y ==> chosen.contains(q),
                self@ == loops_opened(m0, chosen),
                di == density as int,
                n == draws@.len(),
                draws@.len() == closed_in_rows(m0, w as int, h as int),
                forall|k: int| 0 <= k < draws@.len() ==> #[trigger] draws@[k] < 100,
                k == closed_in_rows(m0, w as int, y as int),
                chosen == Set::new(
                    |p: (int, int)|
                        closed_wall_at(m0, p) && draws@[wall_rank(m0, w as int, p)] < di && p.1 < y,
                ),
        {
            for x in 0..w
                invariant
                    y < h,
                    self.wf(),
                    self.cols() == w,
                    self.rows() == h,
                    w <= u32::MAX,
                    h <= u32::MAX,
                    m0 == old(self)@,
                    shut_walls_inside(m0),
                    forall|p: (int, int)|
                        #[trigger] m0.contains_key(p) <==> (0 <= p.0 < w && 0 <= p.1 < h),
                    self@.dom() == m0.dom(),
                    forall|p: (int, int)|
                        #[trigger] m0.contains_key(p) && is_wall(p.0, p.1) && (p.1 > y || (p.1 == y
                            && p.0 >= x)) ==> self@[p] == m0[p],
                    only_loops_opened(m0, self@),
                    forall|q: (int, int)|
                        #[trigger] chosen.contains(q) ==> m0.contains_key(q) && is_wall(q.0, q.1)
                            && m0[q] == Cell::Closed && (q.1 < y || (q.1 == y && q.0 < x)),
                    density == 0 ==> chosen == Set::<(int, int)>::empty(),
                    density >= 100 ==> forall|q: (int, int)|
                        #[trigger] m0.contains_key(q) && is_wall(q.0, q.1) && m0[q] == Cell::Closed
                            && (q.1 < y || (q.1 == y && q.0 < x)) ==> chosen.contains(q),
                    self@ == loops_opened(m0, chosen),
                    di == density as int,
                    n == draws@.len(),
                    draws@.len() == closed_in_rows(m0, w as int, h as int),
                    forall|k: int| 0 <= k < draws@.len() ==> #[trigger] draws@[k] < 100,
                    k == closed_in_rows(m0, w as int, y as int) + closed_in_row(m0, y as int, x as int),
                    chosen == Set::new(
                        |p: (int, int)|
                            closed_wall_at(m0, p) && draws@[wall_rank(m0, w as int, p)] < di && (p.1 < y || (
                            p.1 == y && p.0 < x)),
                    ),
            {
                let ghost q = (x as int, y as int);
                assert(m0.contains_key(q));
                proof {
                    lemma_rank_bound(m0, w as int, h as int, x as int, y as int);
                }
                if x % 2 != y % 2 && self.get(x, y) == Cell::Closed {
                    assert(closed_wall_at(m0, q));
                    assert(wall_rank(m0, w as int, q) == k);
                    let d = draws[k];
                    k = k + 1;
                    if d < density {
                        let ghost g = self@;
                        assert(m0[q] == Cell::Closed);
                        assert(m0.contains_key(side_a(q)) && m0.contains_key(side_b(q)));
                        self.open_wall_at(x, y);
                        proof {
                            lemma_open_loop_step(m0, g, q);
                            assert(self@.dom() =~= m0.dom());
                            lemma_loops_opened_insert(m0, chosen, q);
                            chosen = chosen.insert(q);
                        }
                    }
                } else {
                    assert(!closed_wall_at(m0, q));
                }
                proof {
                    let next = Set::new(
                        |p: (int, int)|
                            closed_wall_at(m0, p) && draws@[wall_rank(m0, w as int, p)] < di && (p.1 < y || (
                            p.1 == y && p.0 < x + 1)),
                    );
                    assert(chosen =~= next);
                }
            }
            proof {
                let next = Set::new(
                    |p: (int, int)|
                        closed_wall_at(m0, p) && draws@[wall_rank(m0, w as int, p)] < di && p.1 < y + 1,
                );
                assert(chosen =~= next) by {
                    assert forall|p: (int, int)| chosen.contains(p) == next.contains(p) by {
                        if closed_wall_at(m0, p) && p.1 == y {
                            assert(p.0 < w);
                        }
                    }
                }
            }
        }
        proof {
            assert(chosen =~= walls_by_draws(m0, w as int, draws@, di));
            assert(loop_choice(m0, chosen, di));
        }
        proof {
            if density == 0 {
                assert(loops_opened(m0, chosen) =~= m0);
            }
            if density >= 100 {
                assert forall|p: (int, int)|
                    #[trigger] m0.contains_key(p) && is_wall(p.0, p.1) && m0[p] == Cell::Closed implies self@[p]
                    == Cell::Open by {
                    assert(chosen.contains(p));
                }
            }
            assert(loop_choice(m0, chosen, density as int));
        }
    }

    /// Opens shut walls at random into loops: each wall that is `Closed`
    /// when the scan (row by row) reaches it gets a number drawn below 100
    /// (see `add_loops_with`). Which numbers come up is left to chance; the
    /// grid ends as some draws below 100 give it, which opens no wall when
    /// `density` is 0 and every `Closed` wall when it is 100 or more.
    pub fn add_loops(&mut self, density: u32)
        requires
            old(self).wf(),
            shut_walls_inside(old(self)@),
        ensures
            exists|draws: Seq<u32>|
                #[trigger] wall_draws(draws, old(self)@, old(self).cols() as int, old(self).rows() as int)
                    && final(self)@ == loops_opened(
                    old(self)@,
                    walls_by_draws(old(self)@, old(self).cols() as int, draws, density as int),
                ) && loop_choice(
                    old(self)@,
                    walls_by_draws(old(self)@, old(self).cols() as int, draws, density as int),
                    density as int,
                ),
            final(self).wf(),
            final(self).cols() == old(self).cols(),
            final(self).rows() == old(self).rows(),
            exists|chosen: Set<(int, int)>|
                #[trigger] loop_choice(old(self)@, chosen, density as int) && final(self)@
                    == loops_opened(old(self)@, chosen),
            density == 0 ==> final(self)@ == old(self)@,
            density >= 100 ==> forall|p: (int, int)|
                #[trigger] old(self)@.contains_key(p) && is_wall(p.0, p.1) && old(self)@[p]
                    == Cell::Closed ==> final(self)@[p] == Cell::Open,
            only_loops_opened(old(self)@, final(self)@),
    {
        let ghost m0 = self@;
        proof {
            self.lemma_domain();
        }
        let w = self.width();
        let h = self.height();
        let mut draws: Vec<u32> = Vec::new();
        for y in 0..h
            invariant
                self@ == m0,
                self.wf(),
                self.cols() == w,
                self.rows() == h,
                forall|p: (int, int)| #[trigger] m0.contains_key(p) <==> (0 <= p.0 < w && 0 <= p.1 < h),
                draws@.len() == closed_in_rows(m0, w as int, y as int),
                forall|k: int| 0 <= k < draws@.len() ==> #[trigger] draws@[k] < 100,
        {
            for x in 0..w
                invariant
                    y < h,
                    self@ == m0,
                    self.wf(),
                    self.cols() == w,
                    self.rows() == h,
                    forall|p: (int, int)| #[trigger] m0.contains_key(p) <==> (0 <= p.0 < w && 0 <= p.1 < h),
                    draws@.len() == closed_in_rows(m0, w as int, y as int) + closed_in_row(
                        m0,
                        y as int,
                        x as int,
                    ),
                    forall|k: int| 0 <= k < draws@.len() ==> #[trigger] draws@[k] < 100,
            {
                if x % 2 != y % 2 && self.get(x, y) == Cell::Closed {
                    let d = random_u32_below(100);
                    draws.push(d);
                } else {
                    assert(!closed_wall_at(m0, (x as int, y as int)));
                }
            }
        }
        self.add_loops_with(&draws, density);
        proof {
            assert(wall_draws(draws@, m0, w as int, h as int));
        }
    }
}

} // verus!
