//! The fixed-width text rendering of a maze: `+---+` border segments,
//! with a space in place of `|` or `---` wherever a passage is open. One
//! row of cells becomes two text lines: the cell row, then its south
//! wall.

use vstd::prelude::*;
use vstd::string::StringExecFns;
use crate::grid::{Cell, Grid};

verus! {

/// The three spaces of a cell's interior followed by its east boundary:
/// open passages print as a space, walls as `|`.
pub open spec fn cell_top(c: Cell) -> Seq<char> {
    "   "@ + if c.east {
        " "@
    } else {
        "|"@
    }
}

/// A cell's south boundary and the corner after it: open passages print
/// as spaces, walls as `---`.
pub open spec fn cell_bottom(c: Cell) -> Seq<char> {
    (if c.south {
        "   "@
    } else {
        "---"@
    }) + "+"@
}

/// The header segments from column `x` to the east edge, ending the line.
pub open spec fn header_from(g: Grid, x: int) -> Seq<char>
    decreases g.width - x,
{
    if x >= g.width {
        "\n"@
    } else {
        "---+"@ + header_from(g, x + 1)
    }
}

/// The cell line of row `r` from column `x` on, ending the line.
pub open spec fn top_from(g: Grid, r: int, x: int) -> Seq<char>
    decreases g.width - x,
{
    if x >= g.width {
        "\n"@
    } else {
        cell_top(g.cells@[r * g.width + x]) + top_from(g, r, x + 1)
    }
}

/// The south-wall line of row `r` from column `x` on, ending the line.
pub open spec fn bottom_from(g: Grid, r: int, x: int) -> Seq<char>
    decreases g.width - x,
{
    if x >= g.width {
        "\n"@
    } else {
        cell_bottom(g.cells@[r * g.width + x]) + bottom_from(g, r, x + 1)
    }
}

/// The two text lines of each cell row from row `r` down.
pub open spec fn rows_from(g: Grid, r: int) -> Seq<char>
    decreases g.height - r,
{
    if r >= g.height {
        Seq::empty()
    } else {
        "|"@ + top_from(g, r, 0) + "+"@ + bottom_from(g, r, 0) + rows_from(g, r + 1)
    }
}

/// The whole rendering: the north border, then two lines per cell row.
pub open spec fn grid_text(g: Grid) -> Seq<char> {
    "+"@ + header_from(g, 0) + rows_from(g, 0)
}

impl Grid {
    /// Renders the maze as fixed-width text, exactly as [`grid_text`]
    /// describes it.
    pub fn to_text(&self) -> (s: String)
        requires
            self.wf(),
        ensures
            s@ == grid_text(*self),
    {
        let w = self.width;
        let h = self.height;
        let n = self.cells.len();
        let mut out = String::new();
        out.append("+");
        let mut x: usize = 0;
        while x < w
            invariant
                x <= w,
                w == self.width,
                out@ + header_from(*self, x as int) == "+"@ + header_from(*self, 0),
            decreases w - x,
        {
            let ghost before = out@;
            out.append("---+");
            proof {
                assert(before + ("---+"@ + header_from(*self, x + 1)) =~= (before + "---+"@)
                    + header_from(*self, x + 1));
            }
            x = x + 1;
        }
        out.append("\n");
        proof {
            assert(out@ =~= "+"@ + header_from(*self, 0));
        }
        let ghost head = out@;
        let mut r: usize = 0;
        while r < h
            invariant
                r <= h,
                w == self.width,
                h == self.height,
                n == self.cells@.len(),
                self.wf(),
                head == "+"@ + header_from(*self, 0),
                out@ + rows_from(*self, r as int) == head + rows_from(*self, 0),
            decreases h - r,
        {
            let ghost rowstart = out@;
            out.append("|");
            proof {
                assert(out@ + top_from(*self, r as int, 0) =~= rowstart + ("|"@ + top_from(
                    *self,
                    r as int,
                    0,
                )));
            }
            let ghost topgoal = rowstart + ("|"@ + top_from(*self, r as int, 0));
            let mut x2: usize = 0;
            while x2 < w
                invariant
                    x2 <= w,
                    w == self.width,
                    h == self.height,
                    n == self.cells@.len(),
                    r < h,
                    self.wf(),
                    topgoal == rowstart + ("|"@ + top_from(*self, r as int, 0)),
                    out@ + top_from(*self, r as int, x2 as int) == topgoal,
                decreases w - x2,
            {
                proof {
                    assert(r * w + x2 < w * h) by (nonlinear_arith)
                        requires
                            0 <= r as int,
                            0 <= x2 as int,
                            (r as int) < h as int,
                            (x2 as int) < w as int,
                    ;
                    assert(r * w + x2 < n);
                }
                let i: usize = r * w + x2;
                let ghost before = out@;
                let ghost c = self.cells@[i as int];
                out.append("   ");
                if self.cells[i].east {
                    out.append(" ");
                } else {
                    out.append("|");
                }
                proof {
                    assert(out@ =~= before + cell_top(c));
                    assert(before + (cell_top(c) + top_from(*self, r as int, x2 + 1)) =~= (before
                        + cell_top(c)) + top_from(*self, r as int, x2 + 1));
                }
                x2 = x2 + 1;
            }
            out.append("\n");
            out.append("+");
            proof {
                assert(out@ + bottom_from(*self, r as int, 0) =~= (topgoal + "+"@) + bottom_from(
                    *self,
                    r as int,
                    0,
                ));
            }
            let ghost botgoal = (topgoal + "+"@) + bottom_from(*self, r as int, 0);
            let mut x3: usize = 0;
            while x3 < w
                invariant
                    x3 <= w,
                    w == self.width,
                    h == self.height,
                    n == self.cells@.len(),
                    r < h,
                    self.wf(),
                    botgoal == (topgoal + "+"@) + bottom_from(*self, r as int, 0),
                    topgoal == rowstart + ("|"@ + top_from(*self, r as int, 0)),
                    out@ + bottom_from(*self, r as int, x3 as int) == botgoal,
                decreases w - x3,
            {
                proof {
                    assert(r * w + x3 < w * h) by (nonlinear_arith)
                        requires
                            0 <= r as int,
                            0 <= x3 as int,
                            (r as int) < h as int,
                            (x3 as int) < w as int,
                    ;
                    assert(r * w + x3 < n);
                }
                let i: usize = r * w + x3;
                let ghost before = out@;
                let ghost c = self.cells@[i as int];
                if self.cells[i].south {
                    out.append("   ");
                } else {
                    out.append("---");
                }
                out.append("+");
                proof {
                    assert(out@ =~= before + cell_bottom(c));
                    assert(before + (cell_bottom(c) + bottom_from(*self, r as int, x3 + 1)) =~= (
                    before + cell_bottom(c)) + bottom_from(*self, r as int, x3 + 1));
                }
                x3 = x3 + 1;
            }
            out.append("\n");
            proof {
                let rr = r as int;
                assert(out@ =~= rowstart + ("|"@ + top_from(*self, rr, 0) + "+"@ + bottom_from(
                    *self,
                    rr,
                    0,
                )));
                assert(rows_from(*self, rr) =~= "|"@ + top_from(*self, rr, 0) + "+"@ + bottom_from(
                    *self,
                    rr,
                    0,
                ) + rows_from(*self, rr + 1));
                assert(out@ + rows_from(*self, rr + 1) =~= rowstart + rows_from(*self, rr));
            }
            r = r + 1;
        }
        proof {
            assert(rows_from(*self, h as int) =~= Seq::<char>::empty());
            assert(out@ =~= out@ + rows_from(*self, h as int));
            assert(out@ =~= head + rows_from(*self, 0));
        }
        out
    }
}

} // verus!
