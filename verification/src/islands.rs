//! Islands: groups of shut cells that no chain of steps joins to a shut
//! cell on the border of the grid. Small ones are removed at random.

use std::collections::HashSet;
use vstd::prelude::*;

use crate::cell::Cell;
use crate::grid::{key, key_of, key_span, lemma_key_decode, Cells};
use crate::phases::row_major_before;
use crate::region::{coords_fit, lemma_reach_self, lemma_reach_symmetric, lemma_reach_transitive, reaches};
use crate::rng::random_u32_below;
use crate::walls::{positions, Grid};

verus! {

/// `p` lies on the border of a `w` by `h` grid.
pub open spec fn on_border(w: int, h: int, p: (int, int)) -> bool {
    p.0 == 0 || p.0 == w - 1 || p.1 == 0 || p.1 == h - 1
}

/// `p` is a cell of the grid that is not open.
pub open spec fn shut(m: Grid, p: (int, int)) -> bool {
    m.contains_key(p) && m[p] != Cell::Open
}

/// Some shut cell on the border reaches `q`.
pub open spec fn reached_from_border(m: Grid, w: int, h: int, q: (int, int)) -> bool {
    exists|e: (int, int)| #![trigger reaches(m, e, q)] shut(m, e) && on_border(w, h, e) && reaches(m, e, q)
}

/// `island` lists, once each, exactly the cells that some shut cell
/// reaches, where that cell is not reached from the border.
pub open spec fn is_island(m: Grid, w: int, h: int, island: Seq<(int, int)>) -> bool {
    &&& island.no_duplicates()
    &&& exists|s: (int, int)|
        #![trigger m.contains_key(s)]
        shut(m, s) && !reached_from_border(m, w, h, s) && forall|q: (int, int)|
            #[trigger] island.contains(q) <==> reaches(m, s, q)
}

/// The keys in `ex` are those of the cells `q` of the grid for which
/// `marked(q)` holds.
pub open spec fn keys_mark(m: Grid, ex: Set<u64>, marked: spec_fn((int, int)) -> bool) -> bool {
    forall|q: (int, int)| #[trigger] m.contains_key(q) ==> (ex.contains(key_of(q.0, q.1) as u64) <==> marked(q))
}

/// A cell that a shut cell reaches is itself shut.
pub proof fn lemma_reached_is_shut(m: Grid, s: (int, int), q: (int, int))
    requires
        shut(m, s),
        reaches(m, s, q),
    ensures
        shut(m, q),
{
    let path = choose|path: Seq<(int, int)>| #[trigger] crate::region::is_path(m, path) && path[0] == s && path.last() == q;
    if path.len() > 1 {
        let k = path.len() - 1;
        assert(crate::region::step(m, path[k - 1], path[k]));
    }
}

/// Adds the keys of the cells of `region` to `ex`.
fn add_region(ex: &mut HashSet<u64>, region: &Vec<(u32, u32)>)
    ensures
        forall|p: (int, int)|
            0 <= p.0 < key_span() && 0 <= p.1 < key_span() ==> (#[trigger] final(ex)@.contains(key_of(p.0, p.1) as u64) <==> (old(ex)@.contains(
                key_of(p.0, p.1) as u64,
            ) || positions(region@).contains(p))),
{
    let ghost ex0 = ex@;
    for i in 0..region.len()
        invariant
            forall|p: (int, int)|
                0 <= p.0 < key_span() && 0 <= p.1 < key_span() ==> (#[trigger] ex@.contains(key_of(p.0, p.1) as u64) <==> (ex0.contains(
                    key_of(p.0, p.1) as u64,
                ) || exists|j: int| 0 <= j < i && positions(region@)[j] == p)),
    {
        let (x, y) = region[i];
        ex.insert(key(x, y));
        proof {
            lemma_key_decode(x as int, y as int);
            assert forall|p: (int, int)| 0 <= p.0 < key_span() && 0 <= p.1 < key_span() implies (#[trigger] ex@.contains(
                key_of(p.0, p.1) as u64,
            ) <==> (ex0.contains(key_of(p.0, p.1) as u64) || exists|j: int|
                0 <= j < i + 1 && positions(region@)[j] == p)) by {
                lemma_key_decode(p.0, p.1);
                if p == (x as int, y as int) {
                    assert(positions(region@)[i as int] == p);
                }
                if exists|j: int| 0 <= j < i + 1 && positions(region@)[j] == p {
                    let j = choose|j: int| 0 <= j < i + 1 && positions(region@)[j] == p;
                    if j < i {
                        assert(exists|j: int| 0 <= j < i && positions(region@)[j] == p);
                    }
                }
            }
        }
    }
    proof {
        assert forall|p: (int, int)| 0 <= p.0 < key_span() && 0 <= p.1 < key_span() implies (#[trigger] ex@.contains(
            key_of(p.0, p.1) as u64,
        ) <==> (ex0.contains(key_of(p.0, p.1) as u64) || positions(region@).contains(p))) by {
            if positions(region@).contains(p) {
                let j = choose|j: int| 0 <= j < positions(region@).len() && positions(region@)[j] == p;
                assert(exists|j: int| 0 <= j < region@.len() && positions(region@)[j] == p);
            }
        }
    }
}

/// The cells that some shut cell picked by `scanned` reaches.
pub open spec fn from_cells(m: Grid, scanned: spec_fn((int, int)) -> bool) -> spec_fn((int, int)) -> bool {
    |q: (int, int)| exists|e: (int, int)| #![trigger reaches(m, e, q)] scanned(e) && shut(m, e) && reaches(m, e, q)
}

/// The cells of the first `y` rows in the first and the last column.
pub open spec fn side_cells(w: int, y: int) -> spec_fn((int, int)) -> bool {
    |e: (int, int)| (e.0 == 0 || e.0 == w - 1) && 0 <= e.1 < y
}

/// The cells of the first and last column, and of the first `x` columns in
/// the first and the last row.
pub open spec fn border_cells(w: int, h: int, x: int) -> spec_fn((int, int)) -> bool {
    |e: (int, int)| ((e.0 == 0 || e.0 == w - 1) && 0 <= e.1 < h) || ((e.1 == 0 || e.1 == h - 1) && 0 <= e.0 < x)
}

/// Marking the region of one more scanned cell `s`.
proof fn lemma_scan_step(
    m: Grid,
    ex0: Set<u64>,
    ex1: Set<u64>,
    s: (int, int),
    old_sc: spec_fn((int, int)) -> bool,
    new_sc: spec_fn((int, int)) -> bool,
)
    requires
        keys_mark(m, ex0, from_cells(m, old_sc)),
        coords_fit(m),
        forall|e: (int, int)| #[trigger] new_sc(e) <==> (old_sc(e) || e == s),
        shut(m, s) ==> forall|p: (int, int)|
            0 <= p.0 < key_span() && 0 <= p.1 < key_span() ==> (#[trigger] ex1.contains(key_of(p.0, p.1) as u64) <==> (ex0.contains(
                key_of(p.0, p.1) as u64,
            ) || reaches(m, s, p))),
        !shut(m, s) ==> ex1 == ex0,
    ensures
        keys_mark(m, ex1, from_cells(m, new_sc)),
{
    lemma_from_cells_add(m, old_sc, new_sc, s);
    assert forall|q: (int, int)| #[trigger] m.contains_key(q) implies (ex1.contains(key_of(q.0, q.1) as u64) <==> from_cells(m, new_sc)(q)) by {
        assert(ex0.contains(key_of(q.0, q.1) as u64) <==> from_cells(m, old_sc)(q));
        assert(from_cells(m, new_sc)(q) <==> (from_cells(m, old_sc)(q) || (shut(m, s) && reaches(m, s, q))));
    }
}

/// Scanning one more cell `s` of the border.
proof fn lemma_from_cells_add(
    m: Grid,
    old_sc: spec_fn((int, int)) -> bool,
    new_sc: spec_fn((int, int)) -> bool,
    s: (int, int),
)
    requires
        forall|e: (int, int)| #[trigger] new_sc(e) <==> (old_sc(e) || e == s),
    ensures
        shut(m, s) ==> forall|q: (int, int)| #[trigger] from_cells(m, new_sc)(q) <==> (from_cells(m, old_sc)(q) || reaches(m, s, q)),
        !shut(m, s) ==> forall|q: (int, int)| #[trigger] from_cells(m, new_sc)(q) <==> from_cells(m, old_sc)(q),
{
    assert forall|q: (int, int)| #[trigger] from_cells(m, new_sc)(q) implies (from_cells(m, old_sc)(q) || (shut(m, s) && reaches(m, s, q))) by {
        let e = choose|e: (int, int)| #![trigger reaches(m, e, q)] new_sc(e) && shut(m, e) && reaches(m, e, q);
        if e != s {
            assert(old_sc(e));
        }
    }
    assert forall|q: (int, int)| from_cells(m, old_sc)(q) implies #[trigger] from_cells(m, new_sc)(q) by {
        let e = choose|e: (int, int)| #![trigger reaches(m, e, q)] old_sc(e) && shut(m, e) && reaches(m, e, q);
        assert(new_sc(e));
    }
    if shut(m, s) {
        assert forall|q: (int, int)| reaches(m, s, q) implies #[trigger] from_cells(m, new_sc)(q) by {
            assert(new_sc(s));
        }
    }
}

/// Some cell of `first` comes, in scan order row by row, before every cell
/// of `second`.
pub open spec fn comes_before(first: Seq<(int, int)>, second: Seq<(int, int)>) -> bool {
    exists|a: (int, int)|
        #[trigger] first.contains(a) && forall|b: (int, int)| #[trigger] second.contains(b) ==> row_major_before(a, b)
}

/// Islands listed with start cells in increasing scan order, each start
/// being the first of its island's cells in that order: the start of an
/// earlier island comes before every cell of a later one.
proof fn lemma_islands_ordered(islands: Seq<Vec<(u32, u32)>>, starts: Seq<(int, int)>)
    requires
        starts.len() == islands.len(),
        forall|k: int| 0 <= k < islands.len() ==> positions(#[trigger] islands[k]@).contains(starts[k]),
        forall|k: int, q: (int, int)|
            0 <= k < islands.len() && #[trigger] positions(islands[k]@).contains(q) ==> !row_major_before(q, starts[k]),
        forall|k1: int, k2: int| 0 <= k1 < k2 < starts.len() ==> row_major_before(#[trigger] starts[k1], #[trigger] starts[k2]),
    ensures
        forall|i: int, j: int|
            0 <= i < j < islands.len() ==> comes_before(positions(#[trigger] islands[i]@), positions(#[trigger] islands[j]@)),
{
    assert forall|i: int, j: int|
        0 <= i < j < islands.len() implies comes_before(positions(#[trigger] islands[i]@), positions(#[trigger] islands[j]@)) by {
        let a = starts[i];
        assert(positions(islands[i]@).contains(a));
        assert(row_major_before(starts[i], starts[j]));
        assert forall|b: (int, int)| #[trigger] positions(islands[j]@).contains(b) implies row_major_before(a, b) by {
            assert(!row_major_before(b, starts[j]));
        }
    }
}

/// `islands` are all the islands of the `w` by `h` grid `m`, as
/// `find_islands` lists them: each is an island, no two share a cell, every
/// shut cell that no shut border cell reaches lies in one, and they come in
/// the order of their first cells.
pub open spec fn islands_of(m: Grid, w: int, h: int, islands: Seq<Vec<(u32, u32)>>) -> bool {
    &&& forall|i: int| 0 <= i < islands.len() ==> is_island(m, w, h, positions(#[trigger] islands[i]@))
    &&& forall|i: int, j: int, q: (int, int)|
        0 <= i < j < islands.len() ==> !(#[trigger] positions(islands[i]@).contains(q)
            && #[trigger] positions(islands[j]@).contains(q))
    &&& forall|q: (int, int)|
        shut(m, q) && !reached_from_border(m, w, h, q) ==> exists|i: int|
            0 <= i < islands.len() && #[trigger] positions(islands[i]@).contains(q)
    &&& forall|i: int, j: int|
        0 <= i < j < islands.len() ==> comes_before(
            positions(#[trigger] islands[i]@),
            positions(#[trigger] islands[j]@),
        )
}

/// The grid with every cell of the islands whose index is in `chosen`
/// painted `Open`.
pub open spec fn opened_islands(m: Grid, islands: Seq<Vec<(u32, u32)>>, chosen: Set<int>) -> Grid {
    Map::new(
        |p: (int, int)| m.contains_key(p),
        |p: (int, int)|
            if exists|k: int|
                #[trigger] chosen.contains(k) && 0 <= k < islands.len() && positions(islands[k]@).contains(p) {
                Cell::Open
            } else {
                m[p]
            },
    )
}

/// `chosen` holds indices of islands of at most `max_cull` cells: none when
/// `chance` is 0, every such island when it is 100 or more.
pub open spec fn culls(chosen: Set<int>, islands: Seq<Vec<(u32, u32)>>, max_cull: int, chance: int) -> bool {
    &&& forall|k: int| #[trigger] chosen.contains(k) ==> 0 <= k < islands.len() && islands[k]@.len() <= max_cull
    &&& chance == 0 ==> chosen == Set::<int>::empty()
    &&& chance >= 100 ==> forall|k: int|
        0 <= k < islands.len() && islands[k]@.len() <= max_cull ==> #[trigger] chosen.contains(k)
}

/// How many of the first `i` islands have at most `max` cells.
pub open spec fn small_before(islands: Seq<Vec<(u32, u32)>>, i: int, max: int) -> int
    decreases i,
{
    if i <= 0 {
        0
    } else {
        small_before(islands, i - 1, max) + if islands[i - 1]@.len() <= max {
            1int
        } else {
            0int
        }
    }
}

/// Counting small islands over a longer prefix counts at least as many.
pub proof fn lemma_small_before_mono(islands: Seq<Vec<(u32, u32)>>, i: int, j: int, max: int)
    requires
        0 <= i <= j,
    ensures
        0 <= small_before(islands, i, max) <= small_before(islands, j, max),
        small_before(islands, i, max) <= i,
    decreases j,
{
    if j > i {
        lemma_small_before_mono(islands, i, j - 1, max);
    } else if i > 0 {
        lemma_small_before_mono(islands, i - 1, i - 1, max);
    }
}

/// The islands the draws open: the `k`-th island of at most `max` cells
/// takes the `k`-th draw and is opened when it is below `chance`.
pub open spec fn culled_by_draws(islands: Seq<Vec<(u32, u32)>>, max: int, draws: Seq<u32>, chance: int) -> Set<int> {
    Set::new(
        |j: int| 0 <= j < islands.len() && islands[j]@.len() <= max && draws[small_before(islands, j, max)] < chance,
    )
}

/// `draws` holds one number below 100 for each island of at most `max`
/// cells.
pub open spec fn island_draws(draws: Seq<u32>, islands: Seq<Vec<(u32, u32)>>, max: int) -> bool {
    &&& draws.len() == small_before(islands, islands.len() as int, max)
    &&& forall|k: int| 0 <= k < draws.len() ==> #[trigger] draws[k] < 100
}

/// Opening island `i` of a grid that has the islands of `chosen` opened
/// gives the grid with the islands of `chosen` and `i` opened.
proof fn lemma_opened_islands_insert(
    m0: Grid,
    islands: Seq<Vec<(u32, u32)>>,
    chosen: Set<int>,
    i: int,
    g: Grid,
    after: Grid,
)
    requires
        0 <= i < islands.len(),
        g == opened_islands(m0, islands, chosen),
        after == Map::new(
            |p: (int, int)| g.contains_key(p),
            |p: (int, int)|
                if positions(islands[i]@).contains(p) {
                    Cell::Open
                } else {
                    g[p]
                },
        ),
    ensures
        after == opened_islands(m0, islands, chosen.insert(i)),
{
    let c2 = chosen.insert(i);
    assert forall|p: (int, int)| #[trigger] after.contains_key(p) implies after[p] == opened_islands(
        m0,
        islands,
        c2,
    )[p] by {
        if positions(islands[i]@).contains(p) {
            assert(c2.contains(i));
        } else {
            if exists|k: int|
                #[trigger] chosen.contains(k) && 0 <= k < islands.len() && positions(islands[k]@).contains(p) {
                let k = choose|k: int|
                    #[trigger] chosen.contains(k) && 0 <= k < islands.len() && positions(islands[k]@).contains(p);
                assert(c2.contains(k));
            } else {
                assert forall|k: int|
                    #[trigger] c2.contains(k) && 0 <= k < islands.len() implies !positions(islands[k]@).contains(
                    p,
                ) by {
                    if k != i {
                        assert(chosen.contains(k));
                    }
                }
            }
        }
    }
    assert(after =~= opened_islands(m0, islands, c2));
}

impl Cells {
    /// Marks in `ex` the region of `(x, y)` when that cell is shut.
    fn mark_region_of(&self, x: u32, y: u32, ex: &mut HashSet<u64>)
        requires
            self.wf(),
            self@.contains_key((x as int, y as int)),
        ensures
            shut(self@, (x as int, y as int)) ==> forall|p: (int, int)|
                0 <= p.0 < key_span() && 0 <= p.1 < key_span() ==> (#[trigger] final(ex)@.contains(key_of(p.0, p.1) as u64) <==> (old(ex)@.contains(
                    key_of(p.0, p.1) as u64,
                ) || reaches(self@, (x as int, y as int), p))),
            !shut(self@, (x as int, y as int)) ==> final(ex)@ == old(ex)@,
    {
        proof {
            self.lemma_domain();
        }
        if self.get(x, y) != Cell::Open {
            let region = self.flood_fill(x, y);
            add_region(ex, &region);
        }
    }

    /// The keys of the cells that a shut cell on the border reaches.
    fn mark_border_regions(&self) -> (excluded: HashSet<u64>)
        requires
            self.wf(),
            (self.cols() == 0) == (self.rows() == 0),
        ensures
            keys_mark(self@, excluded@, |q: (int, int)| reached_from_border(self@, self.cols() as int, self.rows() as int, q)),
    {
        let ghost m = self@;
        proof {
            self.lemma_domain();
        }
        let w = self.width();
        let h = self.height();
        let ghost wi = w as int;
        let ghost hi = h as int;
        let mut excluded: HashSet<u64> = HashSet::new();
        proof {
            assert(keys_mark(m, excluded@, from_cells(m, side_cells(wi, 0))));
        }
        for y in 0..h
            invariant
                self.wf(),
                m == self@,
                w == self.cols(),
                h == self.rows(),
                wi == w,
                hi == h,
                (w == 0) == (h == 0),
                coords_fit(m),
                forall|p: (int, int)| #[trigger] m.contains_key(p) <==> (0 <= p.0 < w && 0 <= p.1 < h),
                keys_mark(m, excluded@, from_cells(m, side_cells(wi, y as int))),
        {
            let ghost ex0 = excluded@;
            self.mark_region_of(0, y, &mut excluded);
            let ghost ex1 = excluded@;
            let ghost mid = |e: (int, int)| side_cells(wi, y as int)(e) || e == (0int, y as int);
            proof {
                lemma_scan_step(m, ex0, ex1, (0, y as int), side_cells(wi, y as int), mid);
            }
            self.mark_region_of(w - 1, y, &mut excluded);
            proof {
                lemma_scan_step(m, ex1, excluded@, (w - 1, y as int), mid, side_cells(wi, y + 1));
            }
        }
        proof {
            assert forall|e: (int, int)| #[trigger] border_cells(wi, hi, 0)(e) <==> side_cells(wi, hi)(e) by {}
            assert forall|q: (int, int)| #[trigger] m.contains_key(q) implies (excluded@.contains(key_of(q.0, q.1) as u64) <==> from_cells(m, border_cells(wi, hi, 0))(q)) by {
                assert(excluded@.contains(key_of(q.0, q.1) as u64) <==> from_cells(m, side_cells(wi, hi))(q));
                if from_cells(m, side_cells(wi, hi))(q) {
                    let e = choose|e: (int, int)| #![trigger reaches(m, e, q)] side_cells(wi, hi)(e) && shut(m, e) && reaches(m, e, q);
                    assert(border_cells(wi, hi, 0)(e));
                }
                if from_cells(m, border_cells(wi, hi, 0))(q) {
                    let e = choose|e: (int, int)| #![trigger reaches(m, e, q)] border_cells(wi, hi, 0)(e) && shut(m, e) && reaches(m, e, q);
                    assert(side_cells(wi, hi)(e));
                }
            }
        }
        for x in 0..w
            invariant
                self.wf(),
                m == self@,
                w == self.cols(),
                h == self.rows(),
                wi == w,
                hi == h,
                (w == 0) == (h == 0),
                coords_fit(m),
                forall|p: (int, int)| #[trigger] m.contains_key(p) <==> (0 <= p.0 < w && 0 <= p.1 < h),
                keys_mark(m, excluded@, from_cells(m, border_cells(wi, hi, x as int))),
        {
            let ghost ex0 = excluded@;
            self.mark_region_of(x, 0, &mut excluded);
            let ghost ex1 = excluded@;
            let ghost mid = |e: (int, int)| border_cells(wi, hi, x as int)(e) || e == (x as int, 0int);
            proof {
                lemma_scan_step(m, ex0, ex1, (x as int, 0), border_cells(wi, hi, x as int), mid);
            }
            self.mark_region_of(x, h - 1, &mut excluded);
            proof {
                lemma_scan_step(m, ex1, excluded@, (x as int, h - 1), mid, border_cells(wi, hi, x + 1));
            }
        }
        let ghost bm = |q: (int, int)| reached_from_border(m, wi, hi, q);
        proof {
            assert forall|q: (int, int)| #[trigger] m.contains_key(q) implies (excluded@.contains(key_of(q.0, q.1) as u64) <==> bm(q)) by {
                assert(excluded@.contains(key_of(q.0, q.1) as u64) <==> from_cells(m, border_cells(wi, hi, wi))(q));
                if from_cells(m, border_cells(wi, hi, wi))(q) {
                    let e = choose|e: (int, int)| #![trigger reaches(m, e, q)] border_cells(wi, hi, wi)(e) && shut(m, e) && reaches(m, e, q);
                    assert(on_border(wi, hi, e));
                }
                if bm(q) {
                    let e = choose|e: (int, int)| #![trigger reaches(m, e, q)] shut(m, e) && on_border(wi, hi, e) && reaches(m, e, q);
                    assert(border_cells(wi, hi, wi)(e));
                }
            }
        }
        excluded
    }

    /// The islands of the grid, in the order in which a scan row by row
    /// first meets one of their cells: each lists the cells a shut cell
    /// reaches (see `is_island`); no cell lies in two islands or is reached
    /// from the border; every shut cell not reached from the border lies in
    /// one of them.
    pub fn find_islands(&self) -> (islands: Vec<Vec<(u32, u32)>>)
        requires
            self.wf(),
            (self.cols() == 0) == (self.rows() == 0),
        ensures
            forall|i: int|
                0 <= i < islands@.len() ==> is_island(
                    self@,
                    self.cols() as int,
                    self.rows() as int,
                    positions(#[trigger] islands@[i]@),
                ),
            forall|i: int, j: int, q: (int, int)|
                0 <= i < j < islands@.len() ==> !(#[trigger] positions(islands@[i]@).contains(q)
                    && #[trigger] positions(islands@[j]@).contains(q)),
            forall|i: int, q: (int, int)|
                0 <= i < islands@.len() && #[trigger] positions(islands@[i]@).contains(q)
                    ==> !reached_from_border(self@, self.cols() as int, self.rows() as int, q),
            forall|q: (int, int)|
                shut(self@, q) && !reached_from_border(self@, self.cols() as int, self.rows() as int, q)
                    ==> exists|i: int|
                    0 <= i < islands@.len() && #[trigger] positions(islands@[i]@).contains(q),
            forall|i: int, j: int|
                0 <= i < j < islands@.len() ==> comes_before(
                    positions(#[trigger] islands@[i]@),
                    positions(#[trigger] islands@[j]@),
                ),
    {
        let ghost m = self@;
        proof {
            self.lemma_domain();
        }
        let w = self.width();
        let h = self.height();
        let ghost wi = w as int;
        let ghost hi = h as int;
        let mut excluded = self.mark_border_regions();
        let ghost bm = |q: (int, int)| reached_from_border(m, wi, hi, q);
        let mut islands: Vec<Vec<(u32, u32)>> = Vec::new();
        let ghost mut starts: Seq<(int, int)> = Seq::empty();
        for y in 0..h
            invariant
                self.wf(),
                m == self@,
                w == self.cols(),
                h == self.rows(),
                wi == w,
                hi == h,
                coords_fit(m),
                forall|p: (int, int)| #[trigger] m.contains_key(p) <==> (0 <= p.0 < w && 0 <= p.1 < h),
                bm == |q: (int, int)| reached_from_border(m, wi, hi, q),
                keys_mark(m, excluded@, |q: (int, int)| bm(q) || exists|k: int| 0 <= k < islands@.len() && #[trigger] positions(islands@[k]@).contains(q)),
                forall|k: int| 0 <= k < islands@.len() ==> is_island(m, wi, hi, positions(#[trigger] islands@[k]@)),
                forall|i: int, j: int, q: (int, int)|
                    0 <= i < j < islands@.len() ==> !(#[trigger] positions(islands@[i]@).contains(q)
                        && #[trigger] positions(islands@[j]@).contains(q)),
                forall|i: int, q: (int, int)|
                    0 <= i < islands@.len() && #[trigger] positions(islands@[i]@).contains(q) ==> !bm(q),
                starts.len() == islands@.len(),
                forall|k: int| 0 <= k < islands@.len() ==> positions(#[trigger] islands@[k]@).contains(starts[k]),
                forall|k: int, q: (int, int)|
                    0 <= k < islands@.len() && #[trigger] positions(islands@[k]@).contains(q) ==> !row_major_before(q, starts[k]),
                forall|k: int| 0 <= k < starts.len() ==> #[trigger] starts[k].1 < y,
                forall|k1: int, k2: int| 0 <= k1 < k2 < starts.len() ==> row_major_before(#[trigger] starts[k1], #[trigger] starts[k2]),
                forall|q: (int, int)|
                    #[trigger] shut(m, q) && q.1 < y && !bm(q) ==> exists|k: int|
                        0 <= k < islands@.len() && #[trigger] positions(islands@[k]@).contains(q),
        {
            for x in 0..w
                invariant
                    y < h,
                    self.wf(),
                    m == self@,
                    w == self.cols(),
                    h == self.rows(),
                    wi == w,
                    hi == h,
                    coords_fit(m),
                    forall|p: (int, int)| #[trigger] m.contains_key(p) <==> (0 <= p.0 < w && 0 <= p.1 < h),
                    bm == |q: (int, int)| reached_from_border(m, wi, hi, q),
                    keys_mark(m, excluded@, |q: (int, int)| bm(q) || exists|k: int| 0 <= k < islands@.len() && #[trigger] positions(islands@[k]@).contains(q)),
                    forall|k: int| 0 <= k < islands@.len() ==> is_island(m, wi, hi, positions(#[trigger] islands@[k]@)),
                    forall|i: int, j: int, q: (int, int)|
                        0 <= i < j < islands@.len() ==> !(#[trigger] positions(islands@[i]@).contains(q)
                            && #[trigger] positions(islands@[j]@).contains(q)),
                    forall|i: int, q: (int, int)|
                        0 <= i < islands@.len() && #[trigger] positions(islands@[i]@).contains(q) ==> !bm(q),
                    starts.len() == islands@.len(),
                    forall|k: int| 0 <= k < islands@.len() ==> positions(#[trigger] islands@[k]@).contains(starts[k]),
                    forall|k: int, q: (int, int)|
                        0 <= k < islands@.len() && #[trigger] positions(islands@[k]@).contains(q) ==> !row_major_before(q, starts[k]),
                    forall|k: int| 0 <= k < starts.len() ==> row_major_before(#[trigger] starts[k], (x as int, y as int)),
                    forall|k1: int, k2: int| 0 <= k1 < k2 < starts.len() ==> row_major_before(#[trigger] starts[k1], #[trigger] starts[k2]),
                    forall|q: (int, int)|
                        #[trigger] shut(m, q) && (q.1 < y || (q.1 == y && q.0 < x)) && !bm(q) ==> exists|k: int|
                            0 <= k < islands@.len() && #[trigger] positions(islands@[k]@).contains(q),
            {
                let ghost s = (x as int, y as int);
                assert(m.contains_key(s));
                if self.get(x, y) != Cell::Open && !excluded.contains(&key(x, y)) {
                    let island = self.flood_fill(x, y);
                    let ghost ex0 = excluded@;
                    let ghost old_islands = islands@;
                    add_region(&mut excluded, &island);
                    let ghost isl = positions(island@);
                    islands.push(island);
                    proof {
                        let n = old_islands.len() as int;
                        assert(islands@[n]@ == island@);
                        assert forall|k: int| 0 <= k < n implies islands@[k] == old_islands[k] by {}
                        lemma_reach_self(m, s);
                        assert(!bm(s));
                        assert(!(exists|k: int| 0 <= k < n && #[trigger] positions(old_islands[k]@).contains(s)));
                        // the new island is one
                        assert(is_island(m, wi, hi, isl));
                        // none of its cells is reached from the border
                        assert forall|q: (int, int)| #[trigger] isl.contains(q) implies !bm(q) by {
                            if bm(q) {
                                let e = choose|e: (int, int)| #![trigger reaches(m, e, q)] shut(m, e) && on_border(wi, hi, e) && reaches(m, e, q);
                                lemma_reach_symmetric(m, s, q);
                                lemma_reach_transitive(m, e, q, s);
                                assert(bm(s));
                            }
                        }
                        // it shares no cell with an earlier island
                        assert forall|k: int, q: (int, int)| 0 <= k < n && #[trigger] positions(old_islands[k]@).contains(q) implies !isl.contains(q) by {
                            if isl.contains(q) {
                                let sk = choose|sk: (int, int)|
                                    #![trigger m.contains_key(sk)]
                                    shut(m, sk) && !reached_from_border(m, wi, hi, sk) && forall|q2: (int, int)|
                                        #[trigger] positions(old_islands[k]@).contains(q2) <==> reaches(m, sk, q2);
                                lemma_reach_symmetric(m, s, q);
                                lemma_reach_transitive(m, sk, q, s);
                                assert(positions(old_islands[k]@).contains(s));
                            }
                        }
                        assert(isl.contains(s));
                        assert forall|q: (int, int)| #[trigger] isl.contains(q) implies !row_major_before(q, s) by {
                            if row_major_before(q, s) {
                                lemma_reached_is_shut(m, s, q);
                                lemma_reach_symmetric(m, s, q);
                                if bm(q) {
                                    let e = choose|e: (int, int)| #![trigger reaches(m, e, q)] shut(m, e) && on_border(wi, hi, e) && reaches(m, e, q);
                                    lemma_reach_transitive(m, e, q, s);
                                    assert(bm(s));
                                } else {
                                    let k = choose|k: int| 0 <= k < n && #[trigger] positions(old_islands[k]@).contains(q);
                                    let sk = choose|sk: (int, int)|
                                        #![trigger m.contains_key(sk)]
                                        shut(m, sk) && !reached_from_border(m, wi, hi, sk) && forall|q2: (int, int)|
                                            #[trigger] positions(old_islands[k]@).contains(q2) <==> reaches(m, sk, q2);
                                    lemma_reach_transitive(m, sk, q, s);
                                    assert(positions(old_islands[k]@).contains(s));
                                }
                            }
                        }
                        starts = starts.push(s);
                        assert forall|q: (int, int)|
                            #[trigger] shut(m, q) && (q.1 < y || (q.1 == y && q.0 < x + 1)) && !bm(q) implies exists|k: int|
                                0 <= k < islands@.len() && #[trigger] positions(islands@[k]@).contains(q) by {
                            if q == s {
                                assert(positions(islands@[n]@).contains(q));
                            } else {
                                let k = choose|k: int| 0 <= k < n && #[trigger] positions(old_islands[k]@).contains(q);
                                assert(positions(islands@[k]@).contains(q));
                            }
                        }
                    }
                } else {
                    proof {
                        if shut(m, s) && !bm(s) {
                            lemma_key_decode(s.0, s.1);
                            assert(excluded@.contains(key_of(s.0, s.1) as u64));
                        }
                    }
                }
            }
        }
        proof {
            lemma_islands_ordered(islands@, starts);
        }
        islands
    }

    /// Paints every listed cell `Open`.
    pub fn open_all(&mut self, cells: &Vec<(u32, u32)>)
        requires
            old(self).wf(),
            forall|i: int| 0 <= i < cells@.len() ==> old(self)@.contains_key(#[trigger] positions(cells@)[i]),
        ensures
            final(self).wf(),
            final(self).cols() == old(self).cols(),
            final(self).rows() == old(self).rows(),
            final(self)@ == Map::new(
                |p: (int, int)| old(self)@.contains_key(p),
                |p: (int, int)|
                    if positions(cells@).contains(p) {
                        Cell::Open
                    } else {
                        old(self)@[p]
                    },
            ),
    {
        let ghost m0 = self@;
        proof {
            self.lemma_domain();
        }
        for i in 0..cells.len()
            invariant
                self.wf(),
                self.cols() == old(self).cols(),
                self.rows() == old(self).rows(),
                m0 == old(self)@,
                forall|j: int| 0 <= j < cells@.len() ==> m0.contains_key(#[trigger] positions(cells@)[j]),
                self@.dom() == m0.dom(),
                forall|p: (int, int)| #[trigger] m0.contains_key(p) <==> (0 <= p.0 < self.cols() && 0 <= p.1 < self.rows()),
                forall|p: (int, int)|
                    #[trigger] m0.contains_key(p) ==> self@[p] == if exists|j: int| 0 <= j < i && positions(cells@)[j] == p {
                        Cell::Open
                    } else {
                        m0[p]
                    },
        {
            let (x, y) = cells[i];
            assert(positions(cells@)[i as int] == (x as int, y as int));
            assert(m0.contains_key((x as int, y as int)));
            self.set(x, y, Cell::Open);
            proof {
                assert forall|p: (int, int)|
                    #[trigger] m0.contains_key(p) implies self@[p] == if exists|j: int| 0 <= j < i + 1 && positions(cells@)[j] == p {
                        Cell::Open
                    } else {
                        m0[p]
                    } by {
                    if exists|j: int| 0 <= j < i + 1 && positions(cells@)[j] == p {
                        let j = choose|j: int| 0 <= j < i + 1 && positions(cells@)[j] == p;
                        if j < i {
                            assert(exists|j: int| 0 <= j < i && positions(cells@)[j] == p);
                        }
                    }
                }
                assert(self@.dom() =~= m0.dom());
            }
        }
        proof {
            assert forall|p: (int, int)| #[trigger] self@.contains_key(p) implies self@[p] == (if positions(cells@).contains(p) {
                Cell::Open
            } else {
                m0[p]
            }) by {
                if positions(cells@).contains(p) {
                    let j = choose|j: int| 0 <= j < positions(cells@).len() && positions(cells@)[j] == p;
                    assert(exists|j: int| 0 <= j < cells@.len() && positions(cells@)[j] == p);
                }
            }
        }
        assert(self@ =~= Map::new(
            |p: (int, int)| m0.contains_key(p),
            |p: (int, int)|
                if positions(cells@).contains(p) {
                    Cell::Open
                } else {
                    m0[p]
                },
        ));
    }

    /// Removes small islands by the draws given: the `k`-th island of at
    /// most `max_cull` cells, in order, takes the `k`-th draw and is opened
    /// whole (see `open_all`) when the draw is below `chance`; the grid ends
    /// with exactly the islands of `culled_by_draws` opened.
    pub fn delete_islands_with(
        &mut self,
        islands: &Vec<Vec<(u32, u32)>>,
        max_cull: usize,
        draws: &Vec<u32>,
        chance: u32,
    )
        requires
            old(self).wf(),
            forall|i: int, j: int|
                0 <= i < islands@.len() && 0 <= j < islands@[i]@.len() ==> old(self)@.contains_key(
                    #[trigger] positions(islands@[i]@)[j],
                ),
            draws@.len() == small_before(islands@, islands@.len() as int, max_cull as int),
            forall|k: int| 0 <= k < draws@.len() ==> #[trigger] draws@[k] < 100,
        ensures
            final(self).wf(),
            final(self).cols() == old(self).cols(),
            final(self).rows() == old(self).rows(),
            final(self)@ == opened_islands(
                old(self)@,
                islands@,
                culled_by_draws(islands@, max_cull as int, draws@, chance as int),
            ),
            culls(
                culled_by_draws(islands@, max_cull as int, draws@, chance as int),
                islands@,
                max_cull as int,
                chance as int,
            ),
            chance == 0 ==> final(self)@ == old(self)@,
            forall|p: (int, int)|
                #[trigger] old(self)@.contains_key(p) ==> final(self)@[p] == old(self)@[p] || (final(self)@[p]
                    == Cell::Open && exists|i: int|
                    0 <= i < islands@.len() && islands@[i]@.len() <= max_cull
                        && #[trigger] positions(islands@[i]@).contains(p)),
    {
        let ghost m0 = self@;
        let ghost mi = max_cull as int;
        let ghost ci = chance as int;
        let ghost mut chosen: Set<int> = Set::empty();
        let mut k: usize = 0;
        proof {
            assert(self@ =~= opened_islands(m0, islands@, chosen));
        }
        for i in 0..islands.len()
            invariant
                self.wf(),
                self.cols() == old(self).cols(),
                self.rows() == old(self).rows(),
                m0 == old(self)@,
                mi == max_cull as int,
                ci == chance as int,
                forall|i: int, j: int|
                    0 <= i < islands@.len() && 0 <= j < islands@[i]@.len() ==> m0.contains_key(
                        #[trigger] positions(islands@[i]@)[j],
                    ),
                draws@.len() == small_before(islands@, islands@.len() as int, mi),
                forall|k: int| 0 <= k < draws@.len() ==> #[trigger] draws@[k] < 100,
                self@.dom() == m0.dom(),
                k == small_before(islands@, i as int, mi),
                chosen == Set::new(
                    |j: int|
                        0 <= j < i && islands@[j]@.len() <= mi && draws@[small_before(islands@, j, mi)] < ci,
                ),
                self@ == opened_islands(m0, islands@, chosen),
        {
            proof {
                lemma_small_before_mono(islands@, i as int + 1, islands@.len() as int, mi);
            }
            if islands[i].len() <= max_cull {
                let draw = draws[k];
                if draw < chance {
                    let ghost g = self@;
                    assert forall|j: int| 0 <= j < islands@[i as int]@.len() implies self@.contains_key(
                        #[trigger] positions(islands@[i as int]@)[j],
                    ) by {
                        assert(m0.contains_key(positions(islands@[i as int]@)[j]));
                    }
                    self.open_all(&islands[i]);
                    proof {
                        lemma_opened_islands_insert(m0, islands@, chosen, i as int, g, self@);
                        chosen = chosen.insert(i as int);
                    }
                }
                k = k + 1;
            }
            proof {
                let next = Set::new(
                    |j: int|
                        0 <= j < i + 1 && islands@[j]@.len() <= mi && draws@[small_before(islands@, j, mi)] < ci,
                );
                assert(chosen =~= next);
                assert(self@.dom() =~= m0.dom());
            }
        }
        proof {
            let c = culled_by_draws(islands@, mi, draws@, ci);
            assert(chosen =~= c);
            assert forall|j: int|
                0 <= j < islands@.len() && islands@[j]@.len() <= mi && ci >= 100 implies #[trigger] c.contains(j) by {
                lemma_small_before_mono(islands@, j + 1, islands@.len() as int, mi);
                assert(small_before(islands@, j + 1, mi) == small_before(islands@, j, mi) + 1);
                lemma_small_before_mono(islands@, j, j, mi);
                assert(draws@[small_before(islands@, j, mi)] < 100);
            }
            if ci == 0 {
                assert(c =~= Set::<int>::empty());
            }
            assert(culls(c, islands@, mi, ci));
            assert forall|p: (int, int)|
                #[trigger] m0.contains_key(p) implies self@[p] == m0[p] || (self@[p] == Cell::Open
                    && exists|k: int|
                    0 <= k < islands@.len() && islands@[k]@.len() <= max_cull
                        && #[trigger] positions(islands@[k]@).contains(p)) by {
                if exists|k: int|
                    #[trigger] c.contains(k) && 0 <= k < islands@.len() && positions(islands@[k]@).contains(p) {
                    let k = choose|k: int|
                        #[trigger] c.contains(k) && 0 <= k < islands@.len() && positions(
                            islands@[k]@,
                        ).contains(p);
                    assert(islands@[k]@.len() <= max_cull);
                }
            }
            if chance == 0 {
                assert(c =~= Set::<int>::empty());
                assert(self@ =~= m0);
            }
        }
    }

    /// Removes small islands at random: each island of at most `max_cull`
    /// cells, in order, gets a number drawn below 100 (see
    /// `delete_islands_with`). Which numbers come up is left to chance; the
    /// grid ends as some draws below 100 give it, so that only small islands
    /// are opened: none when `chance` is 0, all of them when it is 100 or
    /// more.
    pub fn delete_islands(&mut self, islands: &Vec<Vec<(u32, u32)>>, max_cull: usize, chance: u32)
        requires
            old(self).wf(),
            forall|i: int, j: int|
                0 <= i < islands@.len() && 0 <= j < islands@[i]@.len() ==> old(self)@.contains_key(
                    #[trigger] positions(islands@[i]@)[j],
                ),
        ensures
            final(self).wf(),
            final(self).cols() == old(self).cols(),
            final(self).rows() == old(self).rows(),
            exists|draws: Seq<u32>|
                #[trigger] island_draws(draws, islands@, max_cull as int) && final(self)@ == opened_islands(
                    old(self)@,
                    islands@,
                    culled_by_draws(islands@, max_cull as int, draws, chance as int),
                ) && culls(
                    culled_by_draws(islands@, max_cull as int, draws, chance as int),
                    islands@,
                    max_cull as int,
                    chance as int,
                ),
            exists|chosen: Set<int>|
                #[trigger] culls(chosen, islands@, max_cull as int, chance as int) && final(self)@
                    == opened_islands(old(self)@, islands@, chosen),
            chance == 0 ==> final(self)@ == old(self)@,
            forall|p: (int, int)|
                #[trigger] old(self)@.contains_key(p) ==> final(self)@[p] == old(self)@[p] || (final(self)@[p]
                    == Cell::Open && exists|i: int|
                    0 <= i < islands@.len() && islands@[i]@.len() <= max_cull
                        && #[trigger] positions(islands@[i]@).contains(p)),
    {
        let mut draws: Vec<u32> = Vec::new();
        let ghost mi = max_cull as int;
        for i in 0..islands.len()
            invariant
                mi == max_cull as int,
                draws@.len() == small_before(islands@, i as int, mi),
                forall|k: int| 0 <= k < draws@.len() ==> #[trigger] draws@[k] < 100,
                small_before(islands@, i as int, mi) <= i,
        {
            if islands[i].len() <= max_cull {
                let d = random_u32_below(100);
                draws.push(d);
            }
        }
        self.delete_islands_with(islands, max_cull, &draws, chance);
        proof {
            assert(island_draws(draws@, islands@, mi));
        }
    }
}

} // verus!
