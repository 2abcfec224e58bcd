//! Counting the cells of a grid that satisfy a predicate, in the order in
//! which the grid is scanned: column by column, each column top to bottom.

use vstd::prelude::*;

use crate::cell::Cell;
use crate::walls::Grid;

verus! {

/// The number of `(x, y')` with `0 <= y' < y` for which `f` holds.
pub open spec fn count_in_column(
    m: Grid,
    x: int,
    y: int,
    f: spec_fn((int, int), Cell) -> bool,
) -> nat
    decreases y,
{
    if y <= 0 {
        0
    } else {
        count_in_column(m, x, y - 1, f) + if f((x, y - 1), m[(x, y - 1)]) {
            1nat
        } else {
            0nat
        }
    }
}

/// The number of `(x', y')` with `0 <= x' < x` and `0 <= y' < h` for which
/// `f` holds.
pub open spec fn count_in_columns(
    m: Grid,
    x: int,
    h: int,
    f: spec_fn((int, int), Cell) -> bool,
) -> nat
    decreases x,
{
    if x <= 0 {
        0
    } else {
        count_in_columns(m, x - 1, h, f) + count_in_column(m, x - 1, h, f)
    }
}

/// A longer part of a column counts at least as many cells.
pub proof fn lemma_column_prefix(
    m: Grid,
    x: int,
    y1: int,
    y2: int,
    f: spec_fn((int, int), Cell) -> bool,
)
    requires
        y1 <= y2,
    ensures
        count_in_column(m, x, y1, f) <= count_in_column(m, x, y2, f),
    decreases y2 - y1,
{
    if y1 < y2 {
        lemma_column_prefix(m, x, y1, y2 - 1, f);
    }
}

/// More columns count at least as many cells.
pub proof fn lemma_columns_prefix(
    m: Grid,
    x1: int,
    x2: int,
    h: int,
    f: spec_fn((int, int), Cell) -> bool,
)
    requires
        x1 <= x2,
    ensures
        count_in_columns(m, x1, h, f) <= count_in_columns(m, x2, h, f),
    decreases x2 - x1,
{
    if x1 < x2 {
        lemma_columns_prefix(m, x1, x2 - 1, h, f);
    }
}

/// A column of `y` cells counts at most `y` of them.
pub proof fn lemma_column_bound(m: Grid, x: int, y: int, f: spec_fn((int, int), Cell) -> bool)
    requires
        0 <= y,
    ensures
        count_in_column(m, x, y, f) <= y,
    decreases y,
{
    if y > 0 {
        lemma_column_bound(m, x, y - 1, f);
    }
}

/// `x` columns of `h` cells count at most `x * h` of them.
pub proof fn lemma_columns_bound(m: Grid, x: int, h: int, f: spec_fn((int, int), Cell) -> bool)
    requires
        0 <= x,
        0 <= h,
    ensures
        count_in_columns(m, x, h, f) <= x * h,
    decreases x,
{
    if x > 0 {
        lemma_columns_bound(m, x - 1, h, f);
        lemma_column_bound(m, x - 1, h, f);
        assert(x * h == (x - 1) * h + h) by (nonlinear_arith);
    }
}

/// When `f` on `m1` implies `g` on `m2` at each cell of a column, `g`
/// counts at least as many cells of the column, and strictly more when at
/// one of them `g` holds and `f` does not.
pub proof fn lemma_column_monotone(
    m1: Grid,
    m2: Grid,
    x: int,
    y: int,
    f: spec_fn((int, int), Cell) -> bool,
    g: spec_fn((int, int), Cell) -> bool,
)
    requires
        forall|j: int| 0 <= j < y ==> f((x, j), m1[(x, j)]) ==> g((x, j), m2[(x, j)]),
    ensures
        count_in_column(m1, x, y, f) <= count_in_column(m2, x, y, g),
        (exists|j: int| 0 <= j < y && g((x, j), m2[(x, j)]) && !f((x, j), m1[(x, j)])) ==> count_in_column(m1, x, y, f) < count_in_column(m2, x, y, g),
    decreases y,
{
    if y > 0 {
        lemma_column_monotone(m1, m2, x, y - 1, f, g);
        assert(f((x, y - 1), m1[(x, y - 1)]) ==> g((x, y - 1), m2[(x, y - 1)]));
        if exists|j: int| 0 <= j < y && g((x, j), m2[(x, j)]) && !f((x, j), m1[(x, j)]) {
            let j = choose|j: int| 0 <= j < y && g((x, j), m2[(x, j)]) && !f((x, j), m1[(x, j)]);
            if j < y - 1 {
                assert(exists|j: int| 0 <= j < y - 1 && g((x, j), m2[(x, j)]) && !f((x, j), m1[(x, j)]));
            }
        }
    }
}

/// The grid version of `lemma_column_monotone`.
pub proof fn lemma_columns_monotone(
    m1: Grid,
    m2: Grid,
    x: int,
    h: int,
    f: spec_fn((int, int), Cell) -> bool,
    g: spec_fn((int, int), Cell) -> bool,
)
    requires
        forall|i: int, j: int|
            0 <= i < x && 0 <= j < h ==> f((i, j), m1[(i, j)]) ==> g((i, j), m2[(i, j)]),
    ensures
        count_in_columns(m1, x, h, f) <= count_in_columns(m2, x, h, g),
        (exists|i: int, j: int|
            0 <= i < x && 0 <= j < h && g((i, j), m2[(i, j)]) && !f((i, j), m1[(i, j)])) ==> count_in_columns(m1, x, h, f) < count_in_columns(m2, x, h, g),
    decreases x,
{
    if x > 0 {
        lemma_columns_monotone(m1, m2, x - 1, h, f, g);
        lemma_column_monotone(m1, m2, x - 1, h, f, g);
        if exists|i: int, j: int|
            0 <= i < x && 0 <= j < h && g((i, j), m2[(i, j)]) && !f((i, j), m1[(i, j)]) {
            let (i, j) = choose|i: int, j: int|
                0 <= i < x && 0 <= j < h && g((i, j), m2[(i, j)]) && !f((i, j), m1[(i, j)]);
            if i < x - 1 {
                assert(exists|i: int, j: int|
                    0 <= i < x - 1 && 0 <= j < h && g((i, j), m2[(i, j)]) && !f((i, j), m1[(i, j)]));
            } else {
                assert(exists|j: int| #![trigger m1[(x - 1, j)]] 0 <= j < h && g((x - 1, j), m2[(x - 1, j)]) && !f((x - 1, j), m1[(x - 1, j)]));
            }
        }
    }
}

/// A positive count means some cell of the first `x` columns satisfies `f`.
pub proof fn lemma_count_positive(m: Grid, x: int, h: int, f: spec_fn((int, int), Cell) -> bool)
    requires
        count_in_columns(m, x, h, f) > 0,
    ensures
        exists|i: int, j: int| 0 <= i < x && 0 <= j < h && #[trigger] f((i, j), m[(i, j)]),
    decreases x,
{
    if x > 0 {
        if count_in_columns(m, x - 1, h, f) > 0 {
            lemma_count_positive(m, x - 1, h, f);
            let (i, j) = choose|i: int, j: int| 0 <= i < x - 1 && 0 <= j < h && #[trigger] f((i, j), m[(i, j)]);
            assert(f((i, j), m[(i, j)]));
        } else {
            lemma_column_positive(m, x - 1, h, f);
            let j = choose|j: int| 0 <= j < h && #[trigger] f((x - 1, j), m[(x - 1, j)]);
            assert(f((x - 1, j), m[(x - 1, j)]));
        }
    }
}

/// A positive count means some cell of the first `y` of column `x`
/// satisfies `f`.
pub proof fn lemma_column_positive(m: Grid, x: int, y: int, f: spec_fn((int, int), Cell) -> bool)
    requires
        count_in_column(m, x, y, f) > 0,
    ensures
        exists|j: int| 0 <= j < y && #[trigger] f((x, j), m[(x, j)]),
    decreases y,
{
    if y > 0 {
        if count_in_column(m, x, y - 1, f) > 0 {
            lemma_column_positive(m, x, y - 1, f);
            let j = choose|j: int| 0 <= j < y - 1 && #[trigger] f((x, j), m[(x, j)]);
            assert(f((x, j), m[(x, j)]));
        } else {
            assert(f((x, y - 1), m[(x, y - 1)]));
        }
    }
}

} // verus!
