//! Regions of shut cells: the cells a flood fill reaches from a start cell
//! by steps between side-by-side cells that are not open.

use std::collections::HashSet;
use vstd::prelude::*;

use crate::cell::Cell;
use crate::grid::{key, key_of, lemma_key_decode, Cells};
use crate::scan::{count_in_columns, lemma_columns_monotone};
use crate::walls::{positions, Grid};

verus! {

/// `b` is one of the four cells beside `a`.
pub open spec fn beside(a: (int, int), b: (int, int)) -> bool {
    ||| b == (a.0 - 1, a.1)
    ||| b == (a.0 + 1, a.1)
    ||| b == (a.0, a.1 - 1)
    ||| b == (a.0, a.1 + 1)
}

/// A flood fill may step from `a` to `b`: `b` is beside `a`, in the grid,
/// and not open.
pub open spec fn step(m: Grid, a: (int, int), b: (int, int)) -> bool {
    beside(a, b) && m.contains_key(b) && m[b] != Cell::Open
}

/// `path` is a non-empty chain of steps.
pub open spec fn is_path(m: Grid, path: Seq<(int, int)>) -> bool {
    &&& path.len() > 0
    &&& forall|k: int| 0 < k < path.len() ==> #[trigger] step(m, path[k - 1], path[k])
}

/// A chain of steps leads from `s` to `p` (every cell reaches itself).
pub open spec fn reaches(m: Grid, s: (int, int), p: (int, int)) -> bool {
    exists|path: Seq<(int, int)>| #[trigger] is_path(m, path) && path[0] == s && path.last() == p
}

/// The cells not listed in `f`.
pub open spec fn unseen(f: Seq<(int, int)>) -> spec_fn((int, int), Cell) -> bool {
    |p: (int, int), c: Cell| !f.contains(p)
}

/// A step from a reached cell reaches further.
pub proof fn lemma_reach_step(m: Grid, s: (int, int), p: (int, int), q: (int, int))
    requires
        reaches(m, s, p),
        step(m, p, q),
    ensures
        reaches(m, s, q),
{
    let path = choose|path: Seq<(int, int)>| #[trigger] is_path(m, path) && path[0] == s && path.last() == p;
    let longer = path.push(q);
    assert forall|k: int| 0 < k < longer.len() implies #[trigger] step(m, longer[k - 1], longer[k]) by {
        if k < path.len() {
            assert(step(m, path[k - 1], path[k]));
        }
    }
    assert(is_path(m, longer));
}

/// A list that holds `s` and every cell one step away from a listed cell
/// holds every cell that `s` reaches.
pub proof fn lemma_closed_holds_reached(m: Grid, s: (int, int), f: Seq<(int, int)>, p: (int, int))
    requires
        f.contains(s),
        forall|a: (int, int), b: (int, int)| #[trigger] f.contains(a) && #[trigger] step(m, a, b) ==> f.contains(b),
        reaches(m, s, p),
    ensures
        f.contains(p),
{
    let path = choose|path: Seq<(int, int)>| #[trigger] is_path(m, path) && path[0] == s && path.last() == p;
    lemma_closed_holds_path(m, f, path, path.len() - 1);
}

/// The first `k + 1` cells of a path that starts in a closed list are in it.
proof fn lemma_closed_holds_path(m: Grid, f: Seq<(int, int)>, path: Seq<(int, int)>, k: int)
    requires
        is_path(m, path),
        0 <= k < path.len(),
        f.contains(path[0]),
        forall|a: (int, int), b: (int, int)| #[trigger] f.contains(a) && #[trigger] step(m, a, b) ==> f.contains(b),
    ensures
        f.contains(path[k]),
    decreases k,
{
    if k > 0 {
        lemma_closed_holds_path(m, f, path, k - 1);
        assert(step(m, path[k - 1], path[k]));
    }
}

/// Every cell reaches itself.
pub proof fn lemma_reach_self(m: Grid, s: (int, int))
    ensures
        reaches(m, s, s),
{
    let path = seq![s];
    assert(is_path(m, path));
    assert(path.last() == s);
}

/// Steps run both ways between cells that are not open, so a cell that
/// is not open is reached back from every cell it reaches.
pub proof fn lemma_reach_symmetric(m: Grid, a: (int, int), b: (int, int))
    requires
        m.contains_key(a),
        m[a] != Cell::Open,
        reaches(m, a, b),
    ensures
        reaches(m, b, a),
{
    let path = choose|path: Seq<(int, int)>| #[trigger] is_path(m, path) && path[0] == a && path.last() == b;
    let n = path.len();
    let back = Seq::new(n, |k: int| path[n - 1 - k]);
    assert forall|k: int| 0 < k < back.len() implies #[trigger] step(m, back[k - 1], back[k]) by {
        let j = n - 1 - k;
        let i = j + 1;
        assert(step(m, path[i - 1], path[i]));
        if j > 0 {
            assert(step(m, path[j - 1], path[j]));
        }
    }
    assert(is_path(m, back));
    assert(back[0] == b);
    assert(back.last() == a);
}

/// Reaching composes.
pub proof fn lemma_reach_transitive(m: Grid, a: (int, int), b: (int, int), c: (int, int))
    requires
        reaches(m, a, b),
        reaches(m, b, c),
    ensures
        reaches(m, a, c),
{
    let p1 = choose|path: Seq<(int, int)>| #[trigger] is_path(m, path) && path[0] == a && path.last() == b;
    let p2 = choose|path: Seq<(int, int)>| #[trigger] is_path(m, path) && path[0] == b && path.last() == c;
    let joined = p1 + p2.drop_first();
    assert forall|k: int| 0 < k < joined.len() implies #[trigger] step(m, joined[k - 1], joined[k]) by {
        if k < p1.len() {
            assert(step(m, p1[k - 1], p1[k]));
        } else {
            let j = k - p1.len() + 1;
            assert(joined[k] == p2[j]);
            if k == p1.len() {
                assert(joined[k - 1] == p1.last());
                let one: int = 1;
                assert(step(m, p2[one - 1], p2[one]));
            } else {
                assert(joined[k - 1] == p2[j - 1]);
                assert(step(m, p2[j - 1], p2[j]));
            }
        }
    }
    assert(is_path(m, joined));
    if p2.len() == 1 {
        assert(joined =~= p1);
    } else {
        assert(joined.last() == p2.last());
    }
}

/// Pushing onto a list of positions pushes the position.
pub proof fn lemma_positions_push(v: Seq<(u32, u32)>, e: (u32, u32))
    ensures
        positions(v.push(e)) == positions(v).push((e.0 as int, e.1 as int)),
{
    assert(positions(v.push(e)) =~= positions(v).push((e.0 as int, e.1 as int)));
}

/// Dropping the last position of a list.
pub proof fn lemma_positions_drop_last(v: Seq<(u32, u32)>)
    requires
        v.len() > 0,
    ensures
        positions(v.drop_last()) == positions(v).drop_last(),
{
    assert(positions(v.drop_last()) =~= positions(v).drop_last());
}

/// Coordinates of the grid fit `u32`.
pub open spec fn coords_fit(m: Grid) -> bool {
    forall|q: (int, int)|
        #[trigger] m.contains_key(q) ==> 0 <= q.0 <= u32::MAX && 0 <= q.1 <= u32::MAX
}

/// What a flood fill from `s` keeps true: `f` lists found cells once each,
/// all in the grid and reached from `s`, `s` among them; `seen` holds the
/// keys of exactly the found cells; the stack `st` lists found cells once
/// each.
pub open spec fn search_inv(
    m: Grid,
    s: (int, int),
    seen: Set<u64>,
    f: Seq<(int, int)>,
    st: Seq<(int, int)>,
) -> bool {
    &&& coords_fit(m)
    &&& f.no_duplicates()
    &&& f.contains(s)
    &&& forall|q: (int, int)| #[trigger] f.contains(q) ==> m.contains_key(q)
    &&& forall|q: (int, int)|
        #[trigger] m.contains_key(q) ==> (seen.contains(key_of(q.0, q.1) as u64) <==> f.contains(q))
    &&& forall|q: (int, int)| #[trigger] f.contains(q) ==> reaches(m, s, q)
    &&& st.no_duplicates()
    &&& forall|q: (int, int)| #[trigger] st.contains(q) ==> f.contains(q)
}

/// Every found cell off the stack, other than `pending`, has every cell one
/// step away found.
pub open spec fn closed_except(
    m: Grid,
    f: Seq<(int, int)>,
    st: Seq<(int, int)>,
    pending: Option<(int, int)>,
) -> bool {
    forall|a: (int, int), b: (int, int)|
        #[trigger] f.contains(a) && !st.contains(a) && pending != Some(a) && #[trigger] step(m, a, b)
            ==> f.contains(b)
}

/// Considering a cell `n` beside the cell `p` being expanded keeps the
/// search invariant, only adds cells (onto the stack too), and leaves `n`
/// found when `p` may step to it.
proof fn lemma_consider_keeps(
    m: Grid,
    s: (int, int),
    p: (int, int),
    n: (int, int),
    pending: Option<(int, int)>,
    seen0: Set<u64>,
    f0: Seq<(int, int)>,
    st0: Seq<(int, int)>,
    seen1: Set<u64>,
    f1: Seq<(int, int)>,
    st1: Seq<(int, int)>,
)
    requires
        search_inv(m, s, seen0, f0, st0),
        closed_except(m, f0, st0, pending),
        reaches(m, s, p),
        beside(p, n),
        if m.contains_key(n) && m[n] != Cell::Open && !f0.contains(n) {
            &&& f1 == f0.push(n)
            &&& st1 == st0.push(n)
            &&& seen1 == seen0.insert(key_of(n.0, n.1) as u64)
        } else {
            &&& f1 == f0
            &&& st1 == st0
            &&& seen1 == seen0
        },
    ensures
        search_inv(m, s, seen1, f1, st1),
        closed_except(m, f1, st1, pending),
        forall|q: (int, int)| #[trigger] f0.contains(q) ==> f1.contains(q),
        forall|q: (int, int)| #[trigger] st0.contains(q) ==> st1.contains(q),
        step(m, p, n) ==> f1.contains(n),
        f1 == f0 || (f1 == f0.push(n) && m.contains_key(n) && !f0.contains(n) && st1.len() == st0.len() + 1),
        f1 == f0 ==> st1 == st0,
{
    if m.contains_key(n) && m[n] != Cell::Open && !f0.contains(n) {
        assert(step(m, p, n));
        lemma_reach_step(m, s, p, n);
        assert(f1.contains(n)) by {
            assert(f1[f0.len() as int] == n);
        }
        assert forall|q: (int, int)| #[trigger] f0.contains(q) implies f1.contains(q) by {
            let i = choose|i: int| 0 <= i < f0.len() && f0[i] == q;
            assert(f1[i] == q);
        }
        assert forall|q: (int, int)| #[trigger] st0.contains(q) implies st1.contains(q) by {
            let i = choose|i: int| 0 <= i < st0.len() && st0[i] == q;
            assert(st1[i] == q);
        }
        assert forall|q: (int, int)| #[trigger] f1.contains(q) implies f0.contains(q) || q == n by {
            let i = choose|i: int| 0 <= i < f1.len() && f1[i] == q;
            if i < f0.len() {
                assert(f0[i] == q);
            }
        }
        assert forall|q: (int, int)| #[trigger] st1.contains(q) implies st0.contains(q) || q == n by {
            let i = choose|i: int| 0 <= i < st1.len() && st1[i] == q;
            if i < st0.len() {
                assert(st0[i] == q);
            }
        }
        assert(st1.contains(n)) by {
            assert(st1[st0.len() as int] == n);
        }
        assert forall|q: (int, int)| #[trigger] m.contains_key(q) implies (seen1.contains(
            key_of(q.0, q.1) as u64,
        ) <==> f1.contains(q)) by {
            lemma_key_decode(q.0, q.1);
            lemma_key_decode(n.0, n.1);
        }
        assert(f1.no_duplicates()) by {
            assert forall|i: int, j: int|
                0 <= i < f1.len() && 0 <= j < f1.len() && i != j implies f1[i] != f1[j] by {
                if i < f0.len() && j < f0.len() {
                } else if i < f0.len() {
                    assert(f0.contains(f1[i]));
                } else if j < f0.len() {
                    assert(f0.contains(f1[j]));
                }
            }
        }
        assert(st1.no_duplicates()) by {
            assert forall|i: int, j: int|
                0 <= i < st1.len() && 0 <= j < st1.len() && i != j implies st1[i] != st1[j] by {
                if i < st0.len() && j < st0.len() {
                } else if i < st0.len() {
                    assert(st0.contains(st1[i]));
                } else if j < st0.len() {
                    assert(st0.contains(st1[j]));
                }
            }
        }
    }
}

impl Cells {
    /// Lists `(nx, ny)` as found and pushes it on the stack when it lies in
    /// the grid, is not open and was not found before. `(nx, ny)` lies beside
    /// `p`, the cell being expanded.
    fn consider(
        &self,
        nx: u32,
        ny: u32,
        seen: &mut HashSet<u64>,
        found: &mut Vec<(u32, u32)>,
        stack: &mut Vec<(u32, u32)>,
        Ghost(s): Ghost<(int, int)>,
        Ghost(p): Ghost<(int, int)>,
        Ghost(pending): Ghost<Option<(int, int)>>,
    )
        requires
            self.wf(),
            search_inv(self@, s, old(seen)@, positions(old(found)@), positions(old(stack)@)),
            closed_except(self@, positions(old(found)@), positions(old(stack)@), pending),
            reaches(self@, s, p),
            beside(p, (nx as int, ny as int)),
        ensures
            search_inv(self@, s, final(seen)@, positions(final(found)@), positions(final(stack)@)),
            closed_except(self@, positions(final(found)@), positions(final(stack)@), pending),
            forall|q: (int, int)| #[trigger] positions(old(found)@).contains(q) ==> positions(final(found)@).contains(q),
            forall|q: (int, int)| #[trigger] positions(old(stack)@).contains(q) ==> positions(final(stack)@).contains(q),
            step(self@, p, (nx as int, ny as int)) ==> positions(final(found)@).contains((nx as int, ny as int)),
            positions(final(found)@) == positions(old(found)@) ==> final(stack)@ == old(stack)@,
            positions(final(found)@) != positions(old(found)@) ==> {
                &&& self@.contains_key((nx as int, ny as int))
                &&& !positions(old(found)@).contains((nx as int, ny as int))
                &&& positions(final(found)@).contains((nx as int, ny as int))
            },
    {
        let ghost m = self@;
        let ghost n = (nx as int, ny as int);
        let ghost seen0 = seen@;
        let ghost found0 = found@;
        let ghost stack0 = stack@;
        proof {
            lemma_positions_push(found0, (nx, ny));
            lemma_positions_push(stack0, (nx, ny));
        }
        if !self.contains(nx, ny) {
            proof {
                lemma_consider_keeps(m, s, p, n, pending, seen0, positions(found0), positions(stack0), seen@, positions(found@), positions(stack@));
            }
            return;
        }
        if self.get(nx, ny) == Cell::Open {
            proof {
                lemma_consider_keeps(m, s, p, n, pending, seen0, positions(found0), positions(stack0), seen@, positions(found@), positions(stack@));
            }
            return;
        }
        let k = key(nx, ny);
        assert(self@.contains_key(n));
        if seen.contains(&k) {
            proof {
                lemma_consider_keeps(m, s, p, n, pending, seen0, positions(found0), positions(stack0), seen@, positions(found@), positions(stack@));
            }
            return;
        }
        seen.insert(k);
        found.push((nx, ny));
        stack.push((nx, ny));
        proof {
            lemma_consider_keeps(m, s, p, n, pending, seen0, positions(found0), positions(stack0), seen@, positions(found@), positions(stack@));
        }
    }

    /// The cells that `(x, y)` reaches by steps between side-by-side cells
    /// that are not open (see `reaches`), `(x, y)` itself included, each
    /// listed once, in no promised order.
    pub fn flood_fill(&self, x: u32, y: u32) -> (region: Vec<(u32, u32)>)
        requires
            self.wf(),
            self@.contains_key((x as int, y as int)),
        ensures
            positions(region@).no_duplicates(),
            forall|p: (int, int)|
                positions(region@).contains(p) <==> reaches(self@, (x as int, y as int), p),
    {
        let ghost m = self@;
        let ghost s = (x as int, y as int);
        let ghost w = self.cols() as int;
        let ghost h = self.rows() as int;
        proof {
            self.lemma_domain();
        }
        let mut seen: HashSet<u64> = HashSet::new();
        let mut found: Vec<(u32, u32)> = Vec::new();
        let mut stack: Vec<(u32, u32)> = Vec::new();
        seen.insert(key(x, y));
        found.push((x, y));
        stack.push((x, y));
        proof {
            assert(positions(found@) =~= seq![s]);
            assert(positions(stack@) =~= seq![s]);
            assert(positions(found@)[0] == s);
            assert(positions(stack@)[0] == s);
            lemma_key_decode(x as int, y as int);
            assert forall|p: (int, int)| #[trigger] m.contains_key(p) implies (seen@.contains(
                key_of(p.0, p.1) as u64,
            ) <==> positions(found@).contains(p)) by {
                lemma_key_decode(p.0, p.1);
                if positions(found@).contains(p) {
                    assert(positions(found@)[0] == p);
                }
            }
            let path = seq![s];
            assert(is_path(m, path));
            assert(path.last() == s);
        }
        while stack.len() > 0
            invariant
                self.wf(),
                m == self@,
                w == self.cols(),
                h == self.rows(),
                w <= u32::MAX,
                h <= u32::MAX,
                forall|i: int, j: int|
                    #![trigger m.contains_key((i, j))]
                    m.contains_key((i, j)) <==> (0 <= i < w && 0 <= j < h),
                search_inv(m, s, seen@, positions(found@), positions(stack@)),
                closed_except(m, positions(found@), positions(stack@), None),
            decreases count_in_columns(m, w, h, unseen(positions(found@))), stack.len(),
        {
            let ghost f0 = positions(found@);
            let ghost st_raw = stack@;
            let (px, py) = stack.pop().unwrap();
            let ghost p = (px as int, py as int);
            proof {
                lemma_positions_drop_last(st_raw);
                let st0 = positions(st_raw);
                let st = positions(stack@);
                assert(st0.last() == p);
                assert(st0.contains(p));
                assert forall|q: (int, int)| #[trigger] st.contains(q) implies st0.contains(q) && q != p by {
                    let i = choose|i: int| 0 <= i < st.len() && st[i] == q;
                    assert(st0[i] == q);
                }
                assert forall|q: (int, int)| #[trigger] st0.contains(q) implies st.contains(q) || q == p by {
                    let i = choose|i: int| 0 <= i < st0.len() && st0[i] == q;
                    if i < st.len() {
                        assert(st[i] == q);
                    }
                }
                assert(st.no_duplicates());
                assert(closed_except(m, f0, st, Some(p)));
                assert(m.contains_key((px as int, py as int)));
            }
            let ghost pend = Some(p);
            let ghost s0 = stack@;
            if px > 0 {
                self.consider(px - 1, py, &mut seen, &mut found, &mut stack, Ghost(s), Ghost(p), Ghost(pend));
            }
            let ghost f1 = positions(found@);
            let ghost s1 = stack@;
            assert(px + 1 <= u32::MAX);
            self.consider(px + 1, py, &mut seen, &mut found, &mut stack, Ghost(s), Ghost(p), Ghost(pend));
            let ghost f2 = positions(found@);
            let ghost s2 = stack@;
            if py > 0 {
                self.consider(px, py - 1, &mut seen, &mut found, &mut stack, Ghost(s), Ghost(p), Ghost(pend));
            }
            let ghost f3 = positions(found@);
            let ghost s3 = stack@;
            assert(py + 1 <= u32::MAX);
            self.consider(px, py + 1, &mut seen, &mut found, &mut stack, Ghost(s), Ghost(p), Ghost(pend));
            proof {
                let f4 = positions(found@);
                let st4 = positions(stack@);
                assert forall|b: (int, int)| #[trigger] step(m, p, b) implies f4.contains(b) by {
                    if b == (p.0 - 1, p.1) {
                        assert(px > 0);
                    } else if b == (p.0, p.1 - 1) {
                        assert(py > 0);
                    }
                }
                assert(closed_except(m, f4, st4, None));
                if f4 != f0 {
                    let q = if f1 != f0 {
                        (p.0 - 1, p.1)
                    } else if f2 != f1 {
                        (p.0 + 1, p.1)
                    } else if f3 != f2 {
                        (p.0, p.1 - 1)
                    } else {
                        (p.0, p.1 + 1)
                    };
                    assert(m.contains_key(q) && !f0.contains(q) && f4.contains(q));
                    assert(m.contains_key((q.0, q.1)));
                    lemma_columns_monotone(m, m, w, h, unseen(f4), unseen(f0));
                    assert(unseen(f0)((q.0, q.1), m[(q.0, q.1)]));
                    assert(!unseen(f4)((q.0, q.1), m[(q.0, q.1)]));
                } else {
                    if f1 != f0 {
                        assert(f1.contains((p.0 - 1, p.1)));
                        assert(f4.contains((p.0 - 1, p.1)));
                    }
                    if f2 != f1 {
                        assert(f2.contains((p.0 + 1, p.1)));
                        assert(f4.contains((p.0 + 1, p.1)));
                    }
                    if f3 != f2 {
                        assert(f3.contains((p.0, p.1 - 1)));
                        assert(f4.contains((p.0, p.1 - 1)));
                    }
                    assert(s1 == s0);
                    assert(s2 == s1);
                    assert(s3 == s2);
                    assert(stack@ == s3);
                }
            }
        }
        proof {
            assert forall|q: (int, int)| reaches(m, s, q) implies positions(found@).contains(q) by {
                lemma_closed_holds_reached(m, s, positions(found@), q);
            }
        }
        found
    }
}

} // verus!
