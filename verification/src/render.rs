//! Drawing a map as text, two characters per cell.

use vstd::prelude::*;

use crate::cell::Cell;
use crate::grid::Cells;
use crate::walls::Grid;

verus! {

/// What a drawing depends on: the grid and its size, the entrance and exit,
/// and how many times each room is repeated across (`ew`) and down (`eh`).
pub struct Picture {
    pub m: Grid,
    pub w: int,
    pub h: int,
    pub entrance: (int, int),
    pub exit: (int, int),
    pub ew: int,
    pub eh: int,
}

impl Picture {
    /// How many glyphs wide column `x` is drawn: `ew` for rooms, 1 for walls.
    pub open spec fn reps_x(self, x: int) -> int {
        if x % 2 == 0 {
            self.ew
        } else {
            1
        }
    }

    /// How many lines tall row `y` is drawn: `eh` for rooms, 1 for walls.
    pub open spec fn reps_y(self, y: int) -> int {
        if y % 2 == 0 {
            self.eh
        } else {
            1
        }
    }

    /// Whether `p` is an open cell of the grid.
    pub open spec fn is_open(self, p: (int, int)) -> bool {
        self.m[p] == Cell::Open
    }

    /// The glyph drawn for repetition `(j, i)` of cell `(x, y)`. The middle
    /// repetition of the entrance reads `EE`, of the exit `XX`, of a cell that
    /// is both `EX`; open cells are drawn solid, except the corners of a
    /// stretched room next to a wall or the sides of a stretched wall whose
    /// neighbours across are shut; accessible cells are shaded, `Null` ones
    /// dotted, and all others blank.
    pub open spec fn glyph(self, x: int, y: int, i: int, j: int) -> Seq<char> {
        let c = self.m[(x, y)];
        let middle = i == self.eh / 2 && j == self.ew / 2;
        if c == Cell::Open {
            if (x, y) == self.entrance && self.entrance == self.exit && middle {
                "EX"@
            } else if (x, y) == self.entrance && middle {
                "EE"@
            } else if (x, y) == self.exit && middle {
                "XX"@
            } else if x % 2 == y % 2 || i == self.eh / 2 || j == self.ew / 2 {
                "██"@
            } else if x % 2 == 1 {
                if (y > 0 && self.is_open((x, y - 1))) || (y + 1 < self.h && self.is_open(
                    (x, y + 1),
                )) {
                    "██"@
                } else {
                    "  "@
                }
            } else if y % 2 == 1 {
                if (x > 0 && self.is_open((x - 1, y))) || (x + 1 < self.w && self.is_open(
                    (x + 1, y),
                )) {
                    "██"@
                } else {
                    "  "@
                }
            } else {
                "  "@
            }
        } else if c == Cell::Accessible {
            "░░"@
        } else if c == Cell::Null {
            ".."@
        } else {
            "  "@
        }
    }

    /// The first `j` glyphs of line `i` of cell `(x, y)`.
    pub open spec fn run(self, x: int, y: int, i: int, j: int) -> Seq<char>
        decreases j,
    {
        if j <= 0 {
            Seq::empty()
        } else {
            self.run(x, y, i, j - 1) + self.glyph(x, y, i, j - 1)
        }
    }

    /// Line `i` of row `y`, for the columns before `x`.
    pub open spec fn cells_line(self, y: int, i: int, x: int) -> Seq<char>
        decreases x,
    {
        if x <= 0 {
            Seq::empty()
        } else {
            self.cells_line(y, i, x - 1) + self.run(x - 1, y, i, self.reps_x(x - 1))
        }
    }

    /// Line `i` of row `y`: an indent of four spaces, the cells, a newline.
    pub open spec fn line(self, y: int, i: int) -> Seq<char> {
        "    "@ + self.cells_line(y, i, self.w) + "\n"@
    }

    /// The first `i` lines of row `y`.
    pub open spec fn lines(self, y: int, i: int) -> Seq<char>
        decreases i,
    {
        if i <= 0 {
            Seq::empty()
        } else {
            self.lines(y, i - 1) + self.line(y, i - 1)
        }
    }

    /// The lines of the rows before `y`.
    pub open spec fn rows_text(self, y: int) -> Seq<char>
        decreases y,
    {
        if y <= 0 {
            Seq::empty()
        } else {
            self.rows_text(y - 1) + self.lines(y - 1, self.reps_y(y - 1))
        }
    }

    /// The whole drawing: every row, then an empty line.
    pub open spec fn text(self) -> Seq<char> {
        self.rows_text(self.h) + "\n"@
    }
}

impl Cells {
    /// The picture of this grid with the given entrance, exit and
    /// stretching.
    pub open spec fn picture(
        &self,
        entrance: (u32, u32),
        exit: (u32, u32),
        expander_w: u32,
        expander_h: u32,
    ) -> Picture {
        Picture {
            m: self@,
            w: self.cols() as int,
            h: self.rows() as int,
            entrance: (entrance.0 as int, entrance.1 as int),
            exit: (exit.0 as int, exit.1 as int),
            ew: expander_w as int,
            eh: expander_h as int,
        }
    }

    /// The glyph of repetition `(j, i)` of cell `(x, y)`.
    fn glyph_at(
        &self,
        x: u32,
        y: u32,
        i: u32,
        j: u32,
        entrance: (u32, u32),
        exit: (u32, u32),
        expander_w: u32,
        expander_h: u32,
    ) -> (g: &'static str)
        requires
            self.wf(),
            x < self.cols(),
            y < self.rows(),
        ensures
            g@ == self.picture(entrance, exit, expander_w, expander_h).glyph(
                x as int,
                y as int,
                i as int,
                j as int,
            ),
    {
        proof {
            self.lemma_domain();
        }
        let cell_paint = self.get(x, y);
        let middle = i == expander_h / 2 && j == expander_w / 2;
        let at_entrance = x == entrance.0 && y == entrance.1;
        let at_exit = x == exit.0 && y == exit.1;
        let same = entrance.0 == exit.0 && entrance.1 == exit.1;
        if cell_paint == Cell::Open {
            if at_entrance && same && middle {
                "EX"
            } else if at_entrance && middle {
                "EE"
            } else if at_exit && middle {
                "XX"
            } else if x % 2 == y % 2 || i == expander_h / 2 || j == expander_w / 2 {
                "██"
            } else if x % 2 == 1 {
                if (y > 0 && self.get(x, y - 1) == Cell::Open) || (y + 1 < self.height()
                    && self.get(x, y + 1) == Cell::Open) {
                    "██"
                } else {
                    "  "
                }
            } else if y % 2 == 1 {
                if (x > 0 && self.get(x - 1, y) == Cell::Open) || (x + 1 < self.width()
                    && self.get(x + 1, y) == Cell::Open) {
                    "██"
                } else {
                    "  "
                }
            } else {
                "  "
            }
        } else if cell_paint == Cell::Accessible {
            "░░"
        } else if cell_paint == Cell::Null {
            ".."
        } else {
            "  "
        }
    }

    /// Draws the grid (see `Picture::text`).
    pub fn render(&self, entrance: (u32, u32), exit: (u32, u32), expander_w: u32, expander_h: u32) -> (output: String)
        requires
            self.wf(),
        ensures
            output@ == self.picture(entrance, exit, expander_w, expander_h).text(),
    {
        let ghost pic = self.picture(entrance, exit, expander_w, expander_h);
        let w = self.width();
        let h = self.height();
        let mut output = String::new();
        for y in 0..h
            invariant
                self.wf(),
                self.cols() == w,
                self.rows() == h,
                pic == self.picture(entrance, exit, expander_w, expander_h),
                output@ == pic.rows_text(y as int),
        {
            let reps_y = if y % 2 == 0 {
                expander_h
            } else {
                1
            };
            for i in 0..reps_y
                invariant
                    y < h,
                    self.wf(),
                    self.cols() == w,
                    self.rows() == h,
                    pic == self.picture(entrance, exit, expander_w, expander_h),
                    reps_y == pic.reps_y(y as int),
                    output@ == pic.rows_text(y as int) + pic.lines(y as int, i as int),
            {
                let ghost before_line = output@;
                output.append("    ");
                let ghost line_start = output@;
                for x in 0..w
                    invariant
                        y < h,
                        self.wf(),
                        self.cols() == w,
                        self.rows() == h,
                        pic == self.picture(entrance, exit, expander_w, expander_h),
                        output@ == line_start + pic.cells_line(y as int, i as int, x as int),
                {
                    let reps_x = if x % 2 == 0 {
                        expander_w
                    } else {
                        1
                    };
                    let ghost cell_start = output@;
                    for j in 0..reps_x
                        invariant
                            y < h,
                            x < w,
                            self.wf(),
                            self.cols() == w,
                            self.rows() == h,
                            pic == self.picture(entrance, exit, expander_w, expander_h),
                            output@ == cell_start + pic.run(x as int, y as int, i as int, j as int),
                    {
                        let g = self.glyph_at(x, y, i, j, entrance, exit, expander_w, expander_h);
                        let ghost before = output@;
                        output.append(g);
                        assert(output@ =~= cell_start + pic.run(x as int, y as int, i as int, j + 1));
                    }
                    assert(output@ =~= line_start + pic.cells_line(y as int, i as int, x + 1));
                }
                output.append("\n");
                assert(output@ =~= pic.rows_text(y as int) + pic.lines(y as int, i + 1));
            }
            assert(output@ =~= pic.rows_text(y + 1));
        }
        output.append("\n");
        output
    }
}

} // verus!
