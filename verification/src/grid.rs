use std::collections::HashMap;
use vstd::prelude::*;

use crate::cell::Cell;

verus! {

/// The number of distinct `y` coordinates: a position `(x, y)` is stored
/// under the key `x * KEY_SPAN + y`, which is one-to-one on `u32` pairs.
pub open spec fn key_span() -> int {
    0x1_0000_0000
}

/// The key under which position `(x, y)` is stored.
pub open spec fn key_of(x: int, y: int) -> int {
    x * key_span() + y
}

/// A key determines the position it was made from.
pub proof fn lemma_key_decode(x: int, y: int)
    requires
        0 <= x,
        0 <= y < key_span(),
    ensures
        key_of(x, y) / key_span() == x,
        key_of(x, y) % key_span() == y,
{
    vstd::arithmetic::div_mod::lemma_fundamental_div_mod_converse(key_of(x, y), key_span(), x, y);
}

/// The key of a position, as stored in the map.
pub(crate) fn key(x: u32, y: u32) -> (k: u64)
    ensures
        k == key_of(x as int, y as int),
{
    (x as u64) * 0x1_0000_0000u64 + (y as u64)
}

/// A `w` by `h` grid of cells, indexed by `(x, y)` with `x < w` and `y < h`.
pub struct Cells {
    cells: HashMap<u64, Cell>,
    w: u32,
    h: u32,
}

impl View for Cells {
    type V = Map<(int, int), Cell>;

    /// The cell at each position of the grid; the domain is exactly the grid.
    closed spec fn view(&self) -> Map<(int, int), Cell> {
        Map::new(
            |p: (int, int)| 0 <= p.0 < self.w && 0 <= p.1 < self.h,
            |p: (int, int)| self.cells@[key_of(p.0, p.1) as u64],
        )
    }
}

impl Cells {
    /// Number of columns (the range of `x`).
    pub closed spec fn cols(&self) -> nat {
        self.w as nat
    }

    /// Number of rows (the range of `y`).
    pub closed spec fn rows(&self) -> nat {
        self.h as nat
    }

    /// The map holds a key for each position of the grid and no other.
    pub closed spec fn wf(&self) -> bool {
        &&& forall|x: int, y: int|
            0 <= x < self.w && 0 <= y < self.h ==> #[trigger] self.cells@.contains_key(
                key_of(x, y) as u64,
            )
        &&& forall|k: u64|
            #[trigger] self.cells@.contains_key(k) ==> (k as int) / key_span() < self.w && (k as int)
                % key_span() < self.h
    }

    /// A `w` by `h` grid with every cell `Null`.
    pub fn new(w: u32, h: u32) -> (cells: Cells)
        ensures
            cells.wf(),
            cells.cols() == w,
            cells.rows() == h,
            forall|x: int, y: int| 0 <= x < w && 0 <= y < h <==> cells@.contains_key((x, y)),
            forall|x: int, y: int| 0 <= x < w && 0 <= y < h ==> cells@[(x, y)] == Cell::Null,
    {
        let mut cells: HashMap<u64, Cell> = HashMap::new();
        for x in 0..w
            invariant
                forall|i: int, j: int|
                    0 <= i < x && 0 <= j < h ==> #[trigger] cells@.contains_key(key_of(i, j) as u64),
                forall|k: u64|
                    #[trigger] cells@.contains_key(k) ==> (k as int) / key_span() < x && (k as int)
                        % key_span() < h && cells@[k] == Cell::Null,
        {
            for y in 0..h
                invariant
                    x < w,
                    forall|i: int, j: int|
                        (0 <= i < x && 0 <= j < h) || (i == x && 0 <= j < y) ==> #[trigger] cells@.contains_key(
                            key_of(i, j) as u64,
                        ),
                    forall|k: u64|
                        #[trigger] cells@.contains_key(k) ==> (((k as int) / key_span() < x && (k as int)
                            % key_span() < h) || ((k as int) / key_span() == x && (k as int) % key_span()
                            < y)) && cells@[k] == Cell::Null,
            {
                let k = key(x, y);
                proof {
                    lemma_key_decode(x as int, y as int);
                }
                cells.insert(k, Cell::Null);
            }
        }
        let result = Cells { cells, w, h };
        assert forall|x: int, y: int| 0 <= x < w && 0 <= y < h implies result@[(x, y)] == Cell::Null by {
            assert(result.cells@.contains_key(key_of(x, y) as u64));
        }
        result
    }

    /// The number of columns.
    pub fn width(&self) -> (r: u32)
        ensures
            r == self.cols(),
    {
        self.w
    }

    /// The number of rows.
    pub fn height(&self) -> (r: u32)
        ensures
            r == self.rows(),
    {
        self.h
    }

    /// The grid holds exactly the positions with `x < cols` and `y < rows`.
    pub proof fn lemma_domain(&self)
        ensures
            self.cols() <= u32::MAX,
            self.rows() <= u32::MAX,
            forall|p: (int, int)|
                #[trigger] self@.contains_key(p) <==> (0 <= p.0 < self.cols() && 0 <= p.1 < self.rows()),
    {
    }

    /// The paint at `(x, y)`, which must lie in the grid.
    pub fn get(&self, x: u32, y: u32) -> (c: Cell)
        requires
            self.wf(),
            x < self.cols(),
            y < self.rows(),
        ensures
            c == self@[(x as int, y as int)],
    {
        let k = key(x, y);
        assert(self.cells@.contains_key(key_of(x as int, y as int) as u64));
        *self.cells.get(&k).unwrap()
    }

    /// Whether `(x, y)` lies in the grid.
    pub fn contains(&self, x: u32, y: u32) -> (r: bool)
        requires
            self.wf(),
        ensures
            r == self@.contains_key((x as int, y as int)),
            r == (x < self.cols() && y < self.rows()),
    {
        let k = key(x, y);
        proof {
            lemma_key_decode(x as int, y as int);
            if x < self.w && y < self.h {
                assert(self.cells@.contains_key(key_of(x as int, y as int) as u64));
            }
        }
        self.cells.contains_key(&k)
    }

    /// Paints `(x, y)`, which must lie in the grid, with `cell`.
    pub fn set(&mut self, x: u32, y: u32, cell: Cell)
        requires
            old(self).wf(),
            x < old(self).cols(),
            y < old(self).rows(),
        ensures
            final(self).wf(),
            final(self).cols() == old(self).cols(),
            final(self).rows() == old(self).rows(),
            final(self)@ == old(self)@.insert((x as int, y as int), cell),
    {
        let k = key(x, y);
        let ghost old_self = *self;
        self.cells.insert(k, cell);
        proof {
            lemma_key_decode(x as int, y as int);
            assert forall|i: int, j: int|
                0 <= i < self.w && 0 <= j < self.h implies #[trigger] self.cells@.contains_key(
                key_of(i, j) as u64,
            ) by {
                assert(old_self.cells@.contains_key(key_of(i, j) as u64));
            }
            assert forall|p: (int, int)| #[trigger] self@.contains_key(p) implies self@[p] == old_self@.insert(
                (x as int, y as int),
                cell,
            )[p] by {
                lemma_key_decode(p.0, p.1);
            }
            assert(self@ =~= old_self@.insert((x as int, y as int), cell));
        }
    }
}

} // verus!
