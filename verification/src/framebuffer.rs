//! The pixel buffer: a grid of colors that drawing operations change in place.

use crate::bmp::{encode, file_bytes, fits};
use crate::canvas::Canvas;
use crate::color::Color;
use crate::line_impl::{line_region, Line};
use crate::polygon::{lemma_outline_step, outline_upto};
use crate::scanline::{
    filled_region,
    filled_rows,
    lemma_filled_rows_complete,
    lemma_filled_rows_step,
    lemma_spans_region_step,
    lemma_spans_region_whole,
    ratios,
    scanline_crossings,
    sort_crossings,
    span_region,
    spans_region,
    spans_region_upto,
    vertical_extent,
    Crossing,
};
use crate::vertex::Vertex;
use vstd::prelude::*;

verus! {

/// A `width` by `height` grid of colors with a background color and a
/// current drawing color. Its view is the [`Canvas`] that it holds.
pub struct Framebuffer {
    width: usize,
    height: usize,
    buffer: Vec<Color>,
    background_color: Color,
    current_color: Color,
}

impl Framebuffer {
    /// The buffer always holds exactly one cell for each position.
    #[verifier::type_invariant]
    pub open spec fn well_formed(&self) -> bool {
        self@.wf()
    }

    /// What the buffer holds.
    pub closed spec fn view(&self) -> Canvas {
        Canvas {
            width: self.width as nat,
            height: self.height as nat,
            cells: self.buffer@,
            background: self.background_color,
            current: self.current_color,
        }
    }

    /// Creates a buffer of `width` by `height` cells, all white, with white
    /// as background color and black as drawing color.
    pub fn new(width: usize, height: usize) -> (framebuffer: Self)
        requires
            width * height <= usize::MAX,
        ensures
            framebuffer@ == Canvas::blank(width as nat, height as nat),
            framebuffer@.wf(),
    {
        let background_color = Color::new(255, 255, 255);
        let buffer = vec![background_color; width * height];
        let framebuffer = Self {
            width,
            height,
            buffer,
            background_color,
            current_color: Color::new(0, 0, 0),
        };
        assert(framebuffer@.cells =~= Canvas::blank(width as nat, height as nat).cells);
        framebuffer
    }

    /// Resets every cell to the background color.
    pub fn clear(&mut self)
        ensures
            final(self)@ == old(self)@.clear(),
            final(self)@.wf(),
    {
        proof {
            use_type_invariant(&*self);
        }
        let n = self.buffer.len();
        let mut i: usize = 0;
        while i < n
            invariant
                i <= n,
                n == self.buffer@.len(),
                self.buffer@.len() == self.width * self.height,
                self.width == old(self).width,
                self.height == old(self).height,
                self.background_color == old(self).background_color,
                self.current_color == old(self).current_color,
                forall|j: int| 0 <= j < i ==> self.buffer@[j] == self.background_color,
            decreases n - i,
        {
            self.buffer[i] = self.background_color;
            i += 1;
        }
        assert(self@.cells =~= old(self)@.clear().cells);
    }

    /// Writes the current drawing color into the cell at column `x` of row
    /// `y`. A position outside the grid is ignored.
    pub fn point(&mut self, x: isize, y: isize)
        ensures
            final(self)@ == old(self)@.point(x as int, y as int),
            final(self)@.wf(),
    {
        let color = self.current_color;
        self.set_pixel(x, y, color);
    }

    /// Writes `color` into the cell at column `x` of row `y`. A position
    /// outside the grid is ignored.
    pub fn set_pixel(&mut self, x: isize, y: isize, color: Color)
        ensures
            final(self)@ == old(self)@.set_pixel(x as int, y as int, color),
            final(self)@.wf(),
    {
        proof {
            use_type_invariant(&*self);
        }
        if x >= 0 && y >= 0 && (x as usize) < self.width && (y as usize) < self.height {
            self.put(x as usize, y as usize, color);
        }
    }

    /// Writes `color` into a cell of the grid.
    fn put(&mut self, x: usize, y: usize, color: Color)
        requires
            old(self)@.in_bounds(x as int, y as int),
        ensures
            final(self)@ == old(self)@.set_pixel(x as int, y as int, color),
            final(self)@.wf(),
    {
        proof {
            use_type_invariant(&*self);
            self@.lemma_offset(x as int, y as int);
            assert(self@.offset(x as int, y as int) == y * self.width + x);
            assert(self.buffer@.len() == self.buffer.len());
        }
        let index = y * self.width + x;
        self.buffer[index] = color;
    }

    /// Sets the background color from a number of the form `0xRRGGBB`. No
    /// cell changes until the next clear.
    pub fn set_background_color(&mut self, hex_color: u32)
        ensures
            final(self)@ == old(self)@.set_background_color(Color::of_hex(hex_color as int)),
            final(self)@.wf(),
    {
        proof {
            use_type_invariant(&*self);
        }
        self.background_color = Color::from_hex(hex_color);
    }

    /// Sets the drawing color from a number of the form `0xRRGGBB`. No cell
    /// changes.
    pub fn set_current_color(&mut self, hex_color: u32)
        ensures
            final(self)@ == old(self)@.set_current_color(Color::of_hex(hex_color as int)),
            final(self)@.wf(),
    {
        proof {
            use_type_invariant(&*self);
        }
        self.current_color = Color::from_hex(hex_color);
    }

    /// The cells in row-major order, top row first.
    pub fn get_buffer(&self) -> (cells: &Vec<Color>)
        ensures
            cells@ == self@.cells,
            self@.wf(),
    {
        proof {
            use_type_invariant(self);
        }
        &self.buffer
    }

    /// Draws the closed outline of the polygon in the current drawing color:
    /// a line from each vertex to the next, and from the last back to the
    /// first. Fewer than two vertices draw nothing.
    pub fn draw_polygon(&mut self, vertices: &[Vertex])
        ensures
            final(self)@ == old(self)@.draw_polygon(vertices@),
            final(self)@.wf(),
    {
        proof {
            use_type_invariant(&*self);
        }
        let ghost before = self@;
        if vertices.len() < 2 {
            proof {
                before.lemma_paint_empty(before.current);
            }
            return ;
        }
        let n = vertices.len();
        let mut i: usize = 0;
        proof {
            lemma_outline_step(vertices@, 0);
            before.lemma_paint_empty(before.current);
        }
        while i < n
            invariant
                i <= n,
                n == vertices@.len(),
                before.wf(),
                self@ == before.paint(outline_upto(vertices@, i as int), before.current),
            decreases n - i,
        {
            let start = vertices[i];
            let end = if i == n - 1 {
                vertices[0]
            } else {
                vertices[i + 1]
            };
            self.draw_line(start, end);
            proof {
                lemma_outline_step(vertices@, i as int);
                before.lemma_paint_union(
                    outline_upto(vertices@, i as int),
                    line_region(start, end),
                    before.current,
                );
            }
            i += 1;
        }
    }

    /// Fills the polygon with `fill_color`, whatever the current drawing
    /// color. On every scanline the crossings with the edges are put in
    /// ascending order and paired off, and the cells from the ceiling of the
    /// first of a pair to the floor of the second are painted. Fewer than
    /// three vertices fill nothing.
    pub fn fill_polygon(&mut self, vertices: &[Vertex], fill_color: Color)
        ensures
            final(self)@ == old(self)@.fill_polygon(vertices@, fill_color),
            final(self)@.wf(),
    {
        proof {
            use_type_invariant(&*self);
        }
        let ghost before = self@;
        if vertices.len() < 3 {
            proof {
                before.lemma_paint_empty(fill_color);
            }
            return ;
        }
        let (min_y, max_y) = match vertical_extent(vertices) {
            Some(extent) => extent,
            None => { return ; },
        };
        // rows above the grid have no cell to paint, nor have rows below it
        let height = self.height;
        let top: i64 = if min_y < 0 { 0 } else { min_y as i64 };
        let mut y: i64 = top;
        proof {
            before.lemma_paint_agree(
                filled_rows(vertices@, top as int, top as int),
                Set::empty(),
                fill_color,
            );
            before.lemma_paint_empty(fill_color);
        }
        while y <= max_y as i64 && (y as i128) < (height as i128)
            invariant
                0 <= top <= y,
                y <= max_y + 1 || y == top,
                height == before.height,
                before.wf(),
                self@ == before.paint(filled_rows(vertices@, top as int, y as int), fill_color),
            decreases max_y + 1 - y,
        {
            let mut xs = scanline_crossings(vertices, y as i32);
            sort_crossings(&mut xs);
            self.fill_scanline(y as usize, &xs, fill_color);
            proof {
                lemma_filled_rows_step(vertices@, top as int, y as int, ratios(xs@));
                before.lemma_paint_union(
                    filled_rows(vertices@, top as int, y as int),
                    spans_region(ratios(xs@), y as int),
                    fill_color,
                );
            }
            y += 1;
        }
        proof {
            let done = filled_rows(vertices@, top as int, y as int);
            assert forall|u: int, v: int| before.in_bounds(u, v) implies (done.contains((u, v))
                <==> filled_region(vertices@).contains((u, v))) by {
                lemma_filled_rows_complete(
                    vertices@,
                    top as int,
                    y as int,
                    min_y as int,
                    max_y as int,
                    u,
                    v,
                );
            }
            before.lemma_paint_agree(done, filled_region(vertices@), fill_color);
        }
    }

    /// Paints, on row `y`, the spans between paired crossings: from the
    /// ceiling of each crossing at an even place to the floor of the one
    /// after it. A last crossing without a partner paints nothing.
    fn fill_scanline(&mut self, y: usize, xs: &Vec<Crossing>, color: Color)
        requires
            y < old(self)@.height,
        ensures
            final(self)@ == old(self)@.paint(spans_region(ratios(xs@), y as int), color),
            final(self)@.wf(),
    {
        proof {
            use_type_invariant(&*self);
        }
        let ghost before = self@;
        let ghost bounds = ratios(xs@);
        let n = xs.len();
        let mut k: usize = 0;
        proof {
            lemma_spans_region_whole(bounds, y as int, 0);
            before.lemma_paint_empty(color);
        }
        while 2 * k + 1 < n
            invariant
                n == xs@.len(),
                bounds == ratios(xs@),
                2 * k <= n,
                y < before.height,
                before.wf(),
                self@ == before.paint(spans_region_upto(bounds, y as int, k as int), color),
            decreases n - 2 * k,
        {
            let first = xs[2 * k].ceil();
            let last = xs[2 * k + 1].floor();
            self.fill_span(y, first, last, color);
            proof {
                lemma_spans_region_step(bounds, y as int, k as int);
                before.lemma_paint_union(
                    spans_region_upto(bounds, y as int, k as int),
                    span_region(first as int, last as int, y as int),
                    color,
                );
            }
            k += 1;
        }
        proof {
            lemma_spans_region_whole(bounds, y as int, k as int);
        }
    }

    /// Paints the cells of row `y` from column `first` to column `last`,
    /// both included, as far as they lie in the grid.
    fn fill_span(&mut self, y: usize, first: i128, last: i128, color: Color)
        requires
            y < old(self)@.height,
        ensures
            final(self)@ == old(self)@.paint(span_region(first as int, last as int, y as int), color),
            final(self)@.wf(),
    {
        proof {
            use_type_invariant(&*self);
        }
        let ghost before = self@;
        let ghost wanted = span_region(first as int, last as int, y as int);
        let width = self.width;
        if width == 0 || last < 0 || first > (width - 1) as i128 || first > last {
            proof {
                before.lemma_paint_agree(wanted, Set::empty(), color);
                before.lemma_paint_empty(color);
            }
            return ;
        }
        let lo: usize = if first < 0 { 0 } else { first as usize };
        let hi: usize = if last > (width - 1) as i128 { width - 1 } else { last as usize };
        let mut x: usize = lo;
        proof {
            before.lemma_paint_agree(span_region(lo as int, lo - 1, y as int), Set::empty(), color);
            before.lemma_paint_empty(color);
        }
        while x <= hi
            invariant
                lo <= x <= hi + 1,
                hi < width,
                width == before.width,
                y < before.height,
                before.wf(),
                self@ == before.paint(span_region(lo as int, x - 1, y as int), color),
            decreases hi + 1 - x,
        {
            let ghost painted = span_region(lo as int, x - 1, y as int);
            self.put(x, y, color);
            proof {
                before.lemma_paint_insert(painted, color, x as int, y as int);
                assert(painted.insert((x as int, y as int)) =~= span_region(
                    lo as int,
                    x as int,
                    y as int,
                ));
            }
            x += 1;
        }
        proof {
            before.lemma_paint_agree(span_region(lo as int, hi as int, y as int), wanted, color);
        }
    }

    /// Encodes the buffer as an uncompressed 24-bit bitmap file. The format
    /// stores the bottom row first, so the rows are handed to the encoder in
    /// inverted order: row 0 of the buffer is the top row of the picture.
    /// There is no file for a buffer too large for the format.
    pub fn render_buffer(&self) -> (file: Option<Vec<u8>>)
        ensures
            file is Some <==> fits(self@.width as int, self@.height as int),
            file matches Some(bytes) ==> bytes@ == file_bytes(
                self@.width as int,
                self@.height as int,
                self@.flipped(),
            ),
    {
        proof {
            use_type_invariant(self);
        }
        let width = self.width;
        let height = self.height;
        let ghost canvas = self@;
        let mut rows: Vec<Color> = Vec::new();
        let mut r: usize = 0;
        while r < height
            invariant
                r <= height,
                canvas == self@,
                canvas.wf(),
                width == canvas.width,
                height == canvas.height,
                rows@.len() == r * width,
                forall|i: int| 0 <= i < rows@.len() ==> rows@[i] == canvas.flipped()[i],
            decreases height - r,
        {
            let y = height - 1 - r;
            assert((r + 1) * width == r * width + width && r * width + width <= width * height)
                by (nonlinear_arith)
                requires
                    0 <= r < height,
                    0 <= width,
            ;
            let mut x: usize = 0;
            while x < width
                invariant
                    x <= width,
                    r < height,
                    y == height - 1 - r,
                    canvas == self@,
                    canvas.wf(),
                    width == canvas.width,
                    height == canvas.height,
                    r * width + width <= width * height,
                    rows@.len() == r * width + x,
                    forall|i: int| 0 <= i < rows@.len() ==> rows@[i] == canvas.flipped()[i],
                decreases width - x,
            {
                proof {
                    canvas.lemma_offset(x as int, y as int);
                    canvas.lemma_offset(x as int, r as int);
                    assert(canvas.offset(x as int, y as int) == y * width + x);
                    assert(canvas.offset(x as int, r as int) == r * width + x);
                    assert(self.buffer@.len() == self.buffer.len());
                }
                rows.push(self.buffer[y * width + x]);
                x += 1;
            }
            r += 1;
        }
        assert(rows@ =~= canvas.flipped()) by {
            assert(height * width == width * height) by (nonlinear_arith);
        }
        encode(width, height, rows.as_slice())
    }

}

} // verus!
