//! Properties that tie the operations of the library together.

use vstd::prelude::*;

use crate::cell::Cell;
use crate::completion::{accessible, count, done, fillable, filled, is_pillar};
use crate::generate::{distance, min_dist_after};
use crate::render::Picture;
use crate::region::{is_path, lemma_reach_symmetric, lemma_reach_transitive, reaches, step};
use crate::scan::lemma_columns_monotone;
use crate::walls::{is_wall, opened, repaint, shut_walls_inside, side_a, side_b, Grid};

verus! {

/// Painting a cell and reading it back gives the paint; every other cell of
/// the grid reads as before.
pub proof fn law_read_after_write(before: Grid, after: Grid, p: (int, int), c: Cell)
    requires
        after == before.insert(p, c),
    ensures
        after[p] == c,
        forall|q: (int, int)| #[trigger] before.contains_key(q) && q != p ==> after[q] == before[q],
{
}

/// Repainting leaves open cells and cells that are not walls as they are,
/// and paints a wall only `Closed` or `Accessible`.
pub proof fn law_repaint_changes_only_shut_walls(m: Grid, p: (int, int))
    requires
        m.contains_key(p),
    ensures
        m[p] == Cell::Open ==> repaint(m)[p] == Cell::Open,
        !is_wall(p.0, p.1) ==> repaint(m)[p] == m[p],
        repaint(m)[p] != m[p] ==> is_wall(p.0, p.1) && (repaint(m)[p] == Cell::Closed || repaint(m)[p]
            == Cell::Accessible),
{
}

/// Repainting twice is repainting once (when every shut wall lies between
/// two cells of the grid, as `repaint_walls` requires).
pub proof fn law_repaint_idempotent(m: Grid)
    requires
        shut_walls_inside(m),
    ensures
        repaint(repaint(m)) == repaint(m),
{
    let r = repaint(m);
    assert forall|p: (int, int)| #[trigger] r.contains_key(p) implies repaint(r)[p] == r[p] by {
        if is_wall(p.0, p.1) && r[p] != Cell::Open {
            let a = side_a(p);
            let b = side_b(p);
            assert(!is_wall(a.0, a.1));
            assert(!is_wall(b.0, b.1));
            assert(m.contains_key(a) && m.contains_key(b));
            assert(r[a] == m[a]);
            assert(r[b] == m[b]);
        }
    }
    assert(repaint(r) =~= r);
}

/// Opening a wall never shuts an open cell, and leaves the wall and the
/// cells beside it open.
pub proof fn law_opening_keeps_open(m: Grid, p: (int, int), q: (int, int))
    requires
        m.contains_key(q),
        m[q] == Cell::Open,
    ensures
        opened(m, p)[q] == Cell::Open,
        opened(m, p)[p] == Cell::Open,
        opened(m, p)[side_a(p)] == Cell::Open,
        opened(m, p)[side_b(p)] == Cell::Open,
{
}

/// A flood fill never steps onto an open cell: every cell reached, other
/// than the start, lies in the grid and is not open.
pub proof fn law_reached_cells_are_shut(m: Grid, s: (int, int), q: (int, int))
    requires
        reaches(m, s, q),
        q != s,
    ensures
        m.contains_key(q),
        m[q] != Cell::Open,
{
    let path = choose|path: Seq<(int, int)>| #[trigger] is_path(m, path) && path[0] == s && path.last() == q;
    let k = path.len() - 1;
    assert(k > 0);
    assert(step(m, path[k - 1], path[k]));
}

/// Two shut cells reach the same cells or have no reached cell in common:
/// regions of shut cells partition them.
pub proof fn law_regions_equal_or_disjoint(m: Grid, a: (int, int), b: (int, int))
    requires
        m.contains_key(a),
        m[a] != Cell::Open,
        m.contains_key(b),
        m[b] != Cell::Open,
    ensures
        (forall|q: (int, int)| reaches(m, a, q) <==> reaches(m, b, q)) || (forall|q: (int, int)|
            !(reaches(m, a, q) && reaches(m, b, q))),
{
    if exists|q: (int, int)| reaches(m, a, q) && reaches(m, b, q) {
        let q = choose|q: (int, int)| reaches(m, a, q) && reaches(m, b, q);
        lemma_reach_symmetric(m, b, q);
        lemma_reach_transitive(m, a, q, b);
        lemma_reach_symmetric(m, a, b);
        assert forall|r: (int, int)| reaches(m, a, r) <==> reaches(m, b, r) by {
            if reaches(m, a, r) {
                lemma_reach_transitive(m, b, a, r);
            }
            if reaches(m, b, r) {
                lemma_reach_transitive(m, a, b, r);
            }
        }
    }
}

/// Every glyph of a drawing is two characters wide.
pub proof fn law_glyph_two_wide(pic: Picture, x: int, y: int, i: int, j: int)
    ensures
        pic.glyph(x, y, i, j).len() == 2,
{
    reveal_strlit("EX");
    reveal_strlit("EE");
    reveal_strlit("XX");
    reveal_strlit("██");
    reveal_strlit("  ");
    reveal_strlit("░░");
    reveal_strlit("..");
}

/// The number of glyphs across the first `x` columns of a drawing.
pub open spec fn glyphs_across(pic: Picture, x: int) -> int
    decreases x,
{
    if x <= 0 {
        0
    } else {
        glyphs_across(pic, x - 1) + pic.reps_x(x - 1)
    }
}

proof fn lemma_run_len(pic: Picture, x: int, y: int, i: int, j: int)
    requires
        j >= 0,
    ensures
        pic.run(x, y, i, j).len() == 2 * j,
    decreases j,
{
    if j > 0 {
        lemma_run_len(pic, x, y, i, j - 1);
        law_glyph_two_wide(pic, x, y, i, j - 1);
    }
}

proof fn lemma_cells_line_len(pic: Picture, y: int, i: int, x: int)
    requires
        pic.ew >= 0,
        x >= 0,
    ensures
        pic.cells_line(y, i, x).len() == 2 * glyphs_across(pic, x),
    decreases x,
{
    if x > 0 {
        lemma_cells_line_len(pic, y, i, x - 1);
        lemma_run_len(pic, x - 1, y, i, pic.reps_x(x - 1));
    }
}

/// A drawing is rectangular: every line holds the indent of four, two
/// characters per glyph across the grid, and the newline.
pub proof fn law_lines_equally_long(pic: Picture, y: int, i: int)
    requires
        pic.ew >= 0,
        pic.w >= 0,
    ensures
        pic.line(y, i).len() == 5 + 2 * glyphs_across(pic, pic.w),
{
    reveal_strlit("    ");
    reveal_strlit("\n");
    lemma_cells_line_len(pic, y, i, pic.w);
}

/// Growth that is done for a completion of `a` percent is done for every
/// smaller completion.
pub proof fn law_done_monotone(m: Grid, w: int, h: int, a: int, b: int)
    requires
        b <= a,
    ensures
        done(m, w, h, a) ==> done(m, w, h, b),
{
}

/// Whether growth is done does not depend on the pillars: two grids that
/// agree on every other cell of a `w` by `h` grid are done for the same
/// completions.
pub proof fn law_done_ignores_pillars(m1: Grid, m2: Grid, w: int, h: int, amount: int)
    requires
        forall|i: int, j: int|
            0 <= i < w && 0 <= j < h && !is_pillar((i, j)) ==> #[trigger] m1[(i, j)] == m2[(i, j)],
    ensures
        done(m1, w, h, amount) == done(m2, w, h, amount),
{
    lemma_same_count(m1, m2, w, h, filled());
    lemma_same_count(m1, m2, w, h, fillable());
    lemma_same_count(m1, m2, w, h, accessible());
}

/// A predicate false on pillars counts as many cells of two grids that
/// agree off the pillars.
proof fn lemma_same_count(m1: Grid, m2: Grid, w: int, h: int, f: spec_fn((int, int), Cell) -> bool)
    requires
        forall|i: int, j: int|
            0 <= i < w && 0 <= j < h && !is_pillar((i, j)) ==> #[trigger] m1[(i, j)] == m2[(i, j)],
        forall|p: (int, int), c: Cell| #[trigger] f(p, c) ==> !is_pillar(p),
    ensures
        count(m1, w, h, f) == count(m2, w, h, f),
{
    assert forall|i: int, j: int| 0 <= i < w && 0 <= j < h && f((i, j), m1[(i, j)]) implies f(
        (i, j),
        m2[(i, j)],
    ) by {
        if f((i, j), m1[(i, j)]) {
            assert(!is_pillar((i, j)));
            assert(m1[(i, j)] == m2[(i, j)]);
        }
    }
    assert forall|i: int, j: int| 0 <= i < w && 0 <= j < h && f((i, j), m2[(i, j)]) implies f(
        (i, j),
        m1[(i, j)],
    ) by {
        if f((i, j), m2[(i, j)]) {
            assert(!is_pillar((i, j)));
            assert(m1[(i, j)] == m2[(i, j)]);
        }
    }
    lemma_columns_monotone(m1, m2, w, h, f, f);
    lemma_columns_monotone(m2, m1, w, h, f, f);
}

/// Repainting a shut wall between a room on its left and one on its right:
/// it becomes `Accessible` when one of the two is open and the other
/// `Null`, whichever side the open one is on, `Closed` when both are open,
/// and keeps its paint otherwise.
pub proof fn law_repaint_wall_across(m: Grid, x: int, y: int)
    requires
        x % 2 == 1,
        y % 2 == 0,
        m.contains_key((x, y)),
        m.contains_key((x - 1, y)),
        m.contains_key((x + 1, y)),
        m[(x, y)] != Cell::Open,
    ensures
        m[(x - 1, y)] == Cell::Null && m[(x + 1, y)] == Cell::Open ==> repaint(m)[(x, y)] == Cell::Accessible,
        m[(x - 1, y)] == Cell::Open && m[(x + 1, y)] == Cell::Null ==> repaint(m)[(x, y)] == Cell::Accessible,
        m[(x - 1, y)] == Cell::Open && m[(x + 1, y)] == Cell::Open ==> repaint(m)[(x, y)] == Cell::Closed,
        !(m[(x - 1, y)] == Cell::Open || m[(x + 1, y)] == Cell::Open) || (m[(x - 1, y)] != Cell::Null
            && m[(x + 1, y)] != Cell::Null && !(m[(x - 1, y)] == Cell::Open && m[(x + 1, y)]
            == Cell::Open)) ==> repaint(m)[(x, y)] == m[(x, y)],
{
    assert(side_a((x, y)) == (x - 1, y));
    assert(side_b((x, y)) == (x + 1, y));
}

/// Repainting a shut wall between a room above it and one below it: it
/// becomes `Accessible` when one of the two is open and the other `Null`,
/// whichever is the open one, `Closed` when both are open, and keeps its
/// paint otherwise.
pub proof fn law_repaint_wall_down(m: Grid, x: int, y: int)
    requires
        x % 2 == 0,
        y % 2 == 1,
        m.contains_key((x, y)),
        m.contains_key((x, y - 1)),
        m.contains_key((x, y + 1)),
        m[(x, y)] != Cell::Open,
    ensures
        m[(x, y - 1)] == Cell::Null && m[(x, y + 1)] == Cell::Open ==> repaint(m)[(x, y)] == Cell::Accessible,
        m[(x, y - 1)] == Cell::Open && m[(x, y + 1)] == Cell::Null ==> repaint(m)[(x, y)] == Cell::Accessible,
        m[(x, y - 1)] == Cell::Open && m[(x, y + 1)] == Cell::Open ==> repaint(m)[(x, y)] == Cell::Closed,
        !(m[(x, y - 1)] == Cell::Open || m[(x, y + 1)] == Cell::Open) || (m[(x, y - 1)] != Cell::Null
            && m[(x, y + 1)] != Cell::Null && !(m[(x, y - 1)] == Cell::Open && m[(x, y + 1)]
            == Cell::Open)) ==> repaint(m)[(x, y)] == m[(x, y)],
{
    assert(side_a((x, y)) == (x, y - 1));
    assert(side_b((x, y)) == (x, y + 1));
}

/// Before any redraw, the least distance between entrance and exit is half
/// the larger side of the map: at least half of each side and equal to half
/// of one of them. It does not depend on which side is which, and each
/// redraw lowers it by one until it reaches 0.
pub proof fn law_least_exit_distance(w: int, h: int, k: int)
    requires
        0 <= w,
        0 <= h,
        0 <= k,
    ensures
        min_dist_after(w, h, 0) >= w / 2,
        min_dist_after(w, h, 0) >= h / 2,
        min_dist_after(w, h, 0) == w / 2 || min_dist_after(w, h, 0) == h / 2,
        min_dist_after(w, h, k) == min_dist_after(h, w, k),
        min_dist_after(w, h, k + 1) == if min_dist_after(w, h, k) > 0 {
            min_dist_after(w, h, k) - 1
        } else {
            0
        },
{
    assert(w >= h ==> w / 2 >= h / 2) by (nonlinear_arith);
    assert(h >= w ==> h / 2 >= w / 2) by (nonlinear_arith);
}

/// The side lines of an open wall between two rooms side by side, drawn
/// stretched, away from its middle line: solid when the pillar above or the
/// pillar below it is open, blank when neither is; and likewise, for a wall
/// between a room above and one below, with the pillars to its left and
/// right.
pub proof fn law_wall_sides_drawn(pic: Picture, x: int, y: int, i: int, j: int)
    requires
        pic.m[(x, y)] == Cell::Open,
        x % 2 != y % 2,
        i != pic.eh / 2,
        j != pic.ew / 2,
    ensures
        x % 2 == 1 && ((y > 0 && pic.m[(x, y - 1)] == Cell::Open) || (y + 1 < pic.h && pic.m[(x, y + 1)]
            == Cell::Open)) ==> pic.glyph(x, y, i, j) == "██"@,
        x % 2 == 1 && !(y > 0 && pic.m[(x, y - 1)] == Cell::Open) && !(y + 1 < pic.h && pic.m[(x, y + 1)]
            == Cell::Open) ==> pic.glyph(x, y, i, j) == "  "@,
        y % 2 == 1 && ((x > 0 && pic.m[(x - 1, y)] == Cell::Open) || (x + 1 < pic.w && pic.m[(x + 1, y)]
            == Cell::Open)) ==> pic.glyph(x, y, i, j) == "██"@,
        y % 2 == 1 && !(x > 0 && pic.m[(x - 1, y)] == Cell::Open) && !(x + 1 < pic.w && pic.m[(x + 1, y)]
            == Cell::Open) ==> pic.glyph(x, y, i, j) == "  "@,
{
}

/// What each cell of a drawing shows: at its middle, the entrance reads
/// `EE`, the exit `XX`, and a cell that is both `EX`; an open room or pillar
/// is otherwise solid, and so is the middle line of an open wall;
/// accessible cells are shaded, `Null` cells dotted, and closed cells blank.
pub proof fn law_glyph_cells(pic: Picture, x: int, y: int, i: int, j: int)
    ensures
        ({
            let c = pic.m[(x, y)];
            let middle = i == pic.eh / 2 && j == pic.ew / 2;
            &&& c == Cell::Open && middle && (x, y) == pic.entrance && (x, y) == pic.exit ==> pic.glyph(
                x,
                y,
                i,
                j,
            ) == "EX"@
            &&& c == Cell::Open && middle && (x, y) == pic.entrance && (x, y) != pic.exit ==> pic.glyph(
                x,
                y,
                i,
                j,
            ) == "EE"@
            &&& c == Cell::Open && middle && (x, y) != pic.entrance && (x, y) == pic.exit ==> pic.glyph(
                x,
                y,
                i,
                j,
            ) == "XX"@
            &&& c == Cell::Open && !(middle && ((x, y) == pic.entrance || (x, y) == pic.exit)) && (x % 2
                == y % 2 || i == pic.eh / 2 || j == pic.ew / 2) ==> pic.glyph(x, y, i, j) == "██"@
            &&& c == Cell::Accessible ==> pic.glyph(x, y, i, j) == "░░"@
            &&& c == Cell::Null ==> pic.glyph(x, y, i, j) == ".."@
            &&& c == Cell::Closed || c == Cell::ForceClosed ==> pic.glyph(x, y, i, j) == "  "@
        }),
{
}

/// The cells beside a wall: left and right of a wall with odd `x`, above
/// and below one with odd `y`; opening a wall opens it and exactly those
/// two cells.
pub proof fn law_wall_neighbours(m: Grid, x: int, y: int)
    requires
        x % 2 != y % 2,
    ensures
        x % 2 == 1 ==> side_a((x, y)) == (x - 1, y) && side_b((x, y)) == (x + 1, y),
        y % 2 == 1 ==> side_a((x, y)) == (x, y - 1) && side_b((x, y)) == (x, y + 1),
        opened(m, (x, y))[(x, y)] == Cell::Open,
        opened(m, (x, y))[side_a((x, y))] == Cell::Open,
        opened(m, (x, y))[side_b((x, y))] == Cell::Open,
        forall|q: (int, int)|
            q != (x, y) && q != side_a((x, y)) && q != side_b((x, y)) && m.contains_key(q) ==> #[trigger] opened(
                m,
                (x, y),
            )[q] == m[q],
{
}

/// Growth is done for a completion of 0 percent as soon as one cell can be
/// filled, and for every completion once no cell is accessible.
pub proof fn law_done_limits(m: Grid, w: int, h: int, amount: int)
    ensures
        count(m, w, h, fillable()) > 0 ==> done(m, w, h, 0),
        count(m, w, h, accessible()) == 0 ==> done(m, w, h, amount),
{
    if count(m, w, h, fillable()) > 0 {
        let a = (count(m, w, h, filled()) * 100) as int;
        let b = count(m, w, h, fillable()) as int;
        assert(a / b >= 0) by (nonlinear_arith)
            requires
                a >= 0,
                b > 0,
        ;
    }
}

/// The distance between cells: the same both ways, 0 from a cell to
/// itself, unchanged by moving both cells alike, and `d` between cells `d`
/// apart along a row or a column.
pub proof fn law_distance(a: (int, int), b: (int, int), dx: int, dy: int, d: int)
    requires
        0 <= d,
    ensures
        distance(a, b) == distance(b, a),
        distance(a, a) == 0,
        distance((a.0 + dx, a.1 + dy), (b.0 + dx, b.1 + dy)) == distance(a, b),
        distance(a, (a.0 + d, a.1)) == d,
        distance(a, (a.0, a.1 + d)) == d,
        distance(a, b) >= 0,
        distance(a, b) == 0 ==> a == b,
{
}

} // verus!
