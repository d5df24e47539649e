//! The mathematical model of a pixel buffer: a grid of colors in row-major
//! order together with a background color and a current drawing color.

use crate::color::Color;
use vstd::arithmetic::div_mod::{
    lemma_fundamental_div_mod,
    lemma_fundamental_div_mod_converse,
    lemma_mod_bound,
    lemma_multiply_divide_lt,
};
use vstd::arithmetic::mul::{lemma_mul_inequality, lemma_mul_is_commutative};
use vstd::prelude::*;

verus! {

/// The default background color.
pub open spec fn white() -> Color {
    Color { red: 255, green: 255, blue: 255 }
}

/// The default drawing color.
pub open spec fn black() -> Color {
    Color { red: 0, green: 0, blue: 0 }
}

/// What a pixel buffer holds. Row 0 is the top row; within a row, column 0
/// is the leftmost cell.
#[verifier::ext_equal]
pub struct Canvas {
    pub width: nat,
    pub height: nat,
    pub cells: Seq<Color>,
    pub background: Color,
    pub current: Color,
}

impl Canvas {
    /// There is exactly one cell for each position of the grid.
    pub open spec fn wf(self) -> bool {
        self.cells.len() == self.width * self.height
    }

    /// Whether column `x` of row `y` is a cell of the grid.
    pub open spec fn in_bounds(self, x: int, y: int) -> bool {
        0 <= x < self.width && 0 <= y < self.height
    }

    /// The place in `cells` of column `x` of row `y`.
    pub open spec fn offset(self, x: int, y: int) -> int {
        y * self.width + x
    }

    /// The column of the cell at place `i`.
    pub open spec fn column(self, i: int) -> int {
        i % (self.width as int)
    }

    /// The row of the cell at place `i`.
    pub open spec fn row(self, i: int) -> int {
        i / (self.width as int)
    }

    /// The color at column `x` of row `y`.
    pub open spec fn pixel(self, x: int, y: int) -> Color
        recommends
            self.in_bounds(x, y),
    {
        self.cells[self.offset(x, y)]
    }

    /// A fresh grid: every cell white, white background, black drawing color.
    pub open spec fn blank(width: nat, height: nat) -> Canvas {
        Canvas {
            width,
            height,
            cells: Seq::new(width * height, |i: int| white()),
            background: white(),
            current: black(),
        }
    }

    /// Every cell reset to the background color.
    pub open spec fn clear(self) -> Canvas {
        Canvas { cells: Seq::new(self.cells.len(), |i: int| self.background), ..self }
    }

    /// The same grid with another background color; no cell changes.
    pub open spec fn set_background_color(self, color: Color) -> Canvas {
        Canvas { background: color, ..self }
    }

    /// The same grid with another drawing color; no cell changes.
    pub open spec fn set_current_color(self, color: Color) -> Canvas {
        Canvas { current: color, ..self }
    }

    /// One cell overwritten. A position outside the grid leaves it as it is.
    pub open spec fn set_pixel(self, x: int, y: int, color: Color) -> Canvas {
        if self.in_bounds(x, y) {
            Canvas { cells: self.cells.update(self.offset(x, y), color), ..self }
        } else {
            self
        }
    }

    /// One cell overwritten with the current drawing color.
    pub open spec fn point(self, x: int, y: int) -> Canvas {
        self.set_pixel(x, y, self.current)
    }

    /// Every cell whose position lies in `region` overwritten with `color`;
    /// positions of `region` outside the grid do not count.
    pub open spec fn paint(self, region: Set<(int, int)>, color: Color) -> Canvas {
        Canvas {
            cells: Seq::new(
                self.cells.len(),
                |i: int|
                    if region.contains((self.column(i), self.row(i))) {
                        color
                    } else {
                        self.cells[i]
                    },
            ),
            ..self
        }
    }

    /// The cells with the order of the rows inverted: the bottom row first,
    /// each row still from left to right.
    pub open spec fn flipped(self) -> Seq<Color> {
        Seq::new(
            self.cells.len(),
            |i: int| self.pixel(self.column(i), self.height - 1 - self.row(i)),
        )
    }

    /// A position of the grid has a place in `cells`, and that place leads
    /// back to the position.
    pub proof fn lemma_offset(self, x: int, y: int)
        requires
            self.wf(),
            self.in_bounds(x, y),
        ensures
            0 <= self.offset(x, y) < self.cells.len(),
            self.column(self.offset(x, y)) == x,
            self.row(self.offset(x, y)) == y,
    {
        let w = self.width as int;
        let h = self.height as int;
        lemma_fundamental_div_mod_converse(y * w + x, w, y, x);
        assert(y * w + x < w * h) by {
            lemma_mul_inequality(y + 1, h, w);
            lemma_mul_is_commutative(w, h);
            assert((y + 1) * w == y * w + w) by (nonlinear_arith);
        }
        assert(0 <= y * w) by (nonlinear_arith)
            requires
                0 <= y,
                0 <= w,
        ;
    }

    /// Every place in `cells` is that of exactly one position of the grid.
    pub proof fn lemma_position(self, i: int)
        requires
            self.wf(),
            0 <= i < self.cells.len(),
        ensures
            self.in_bounds(self.column(i), self.row(i)),
            self.offset(self.column(i), self.row(i)) == i,
    {
        let w = self.width as int;
        let h = self.height as int;
        assert(w > 0) by {
            if w == 0 {
                assert(w * h == 0) by (nonlinear_arith)
                    requires
                        w == 0,
                ;
            }
        }
        lemma_fundamental_div_mod(i, w);
        lemma_mod_bound(i, w);
        lemma_multiply_divide_lt(i, w, h);
        lemma_mul_is_commutative(w, i / w);
        assert(0 <= i / w) by {
            if i / w < 0 {
                assert(w * (i / w) <= -w) by (nonlinear_arith)
                    requires
                        w > 0,
                        i / w <= -1,
                ;
            }
        }
    }

    /// Painting a region gives its color to the cells in it and leaves the
    /// others as they were.
    pub proof fn lemma_paint_pixel(self, region: Set<(int, int)>, color: Color, x: int, y: int)
        requires
            self.wf(),
            self.in_bounds(x, y),
        ensures
            self.paint(region, color).pixel(x, y) == if region.contains((x, y)) {
                color
            } else {
                self.pixel(x, y)
            },
    {
        self.lemma_offset(x, y);
    }

    /// Writing one cell changes that cell and no other.
    pub proof fn lemma_set_pixel_pixel(self, x: int, y: int, color: Color, u: int, v: int)
        requires
            self.wf(),
            self.in_bounds(u, v),
        ensures
            self.set_pixel(x, y, color).pixel(u, v) == if u == x && v == y {
                color
            } else {
                self.pixel(u, v)
            },
    {
        self.lemma_offset(u, v);
        if self.in_bounds(x, y) {
            self.lemma_offset(x, y);
        }
    }

    /// After a clear every cell holds the background color.
    pub proof fn lemma_clear_pixel(self, x: int, y: int)
        requires
            self.wf(),
            self.in_bounds(x, y),
        ensures
            self.clear().pixel(x, y) == self.background,
    {
        self.lemma_offset(x, y);
    }

    /// Clearing twice in a row is the same as clearing once.
    pub proof fn lemma_clear_idempotent(self)
        ensures
            self.clear().clear() == self.clear(),
    {
        assert(self.clear().clear().cells =~= self.clear().cells);
    }

    /// Painting nothing changes nothing.
    pub proof fn lemma_paint_empty(self, color: Color)
        ensures
            self.paint(Set::empty(), color) == self,
    {
        assert(self.paint(Set::empty(), color).cells =~= self.cells);
    }

    /// Two regions that hold the same positions of the grid paint the same.
    pub proof fn lemma_paint_agree(self, a: Set<(int, int)>, b: Set<(int, int)>, color: Color)
        requires
            self.wf(),
            forall|x: int, y: int|
                self.in_bounds(x, y) ==> (a.contains((x, y)) <==> b.contains((x, y))),
        ensures
            self.paint(a, color) == self.paint(b, color),
    {
        assert forall|i: int| 0 <= i < self.cells.len() implies self.paint(a, color).cells[i]
            == self.paint(b, color).cells[i] by {
            self.lemma_position(i);
        }
        assert(self.paint(a, color).cells =~= self.paint(b, color).cells);
    }

    /// Writing one cell after painting a region in the same color paints the
    /// region with that position added.
    pub proof fn lemma_paint_insert(self, region: Set<(int, int)>, color: Color, x: int, y: int)
        requires
            self.wf(),
        ensures
            self.paint(region, color).set_pixel(x, y, color) == self.paint(
                region.insert((x, y)),
                color,
            ),
    {
        let left = self.paint(region, color).set_pixel(x, y, color);
        let right = self.paint(region.insert((x, y)), color);
        if self.in_bounds(x, y) {
            self.lemma_offset(x, y);
        }
        assert forall|i: int| 0 <= i < self.cells.len() implies left.cells[i] == right.cells[i] by {
            self.lemma_position(i);
        }
        assert(left.cells =~= right.cells);
    }

    /// Painting two regions in one color, one after the other, paints their union.
    pub proof fn lemma_paint_union(self, a: Set<(int, int)>, b: Set<(int, int)>, color: Color)
        ensures
            self.paint(a, color).paint(b, color) == self.paint(a.union(b), color),
    {
        assert(self.paint(a, color).paint(b, color).cells =~= self.paint(a.union(b), color).cells);
    }

    /// Painting keeps the grid well formed.
    pub proof fn lemma_paint_wf(self, region: Set<(int, int)>, color: Color)
        requires
            self.wf(),
        ensures
            self.paint(region, color).wf(),
    {
    }
}

} // verus!
