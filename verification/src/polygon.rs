//! What drawing and filling a polygon change: the positions of its outline
//! and of its filled region, and the pixel buffer after either operation.

use crate::canvas::Canvas;
use crate::color::Color;
use crate::line_impl::line_region;
use crate::rational::Ratio;
use crate::scanline::{
    arranges,
    crosses,
    crossing_at,
    crossings,
    crossings_upto,
    filled_region,
    in_span,
    lemma_no_crossings_no_cover,
    lemma_scanline_covers,
    scanline_covers,
    spans_cover,
};
use crate::vertex::{edge_end, Vertex};
use vstd::arithmetic::div_mod::lemma_div_multiples_vanish;
use vstd::prelude::*;
use vstd::seq_lib::lemma_seq_union_to_multiset_commutative;

verus! {

/// The positions on the first `k` edges of the polygon. Edge `i` is the line
/// from vertex `i` to the vertex after it.
pub open spec fn outline_upto(vertices: Seq<Vertex>, k: int) -> Set<(int, int)> {
    Set::new(
        |p: (int, int)|
            exists|i: int|
                0 <= i < k && line_region(vertices[i], edge_end(vertices, i)).contains(p),
    )
}

/// The positions on the closed outline of the polygon: one edge from each
/// vertex. Fewer than two vertices have no outline.
pub open spec fn outline(vertices: Seq<Vertex>) -> Set<(int, int)> {
    if vertices.len() < 2 {
        Set::empty()
    } else {
        outline_upto(vertices, vertices.len() as int)
    }
}

impl Canvas {
    /// The outline of the polygon drawn in the current drawing color.
    pub open spec fn draw_polygon(self, vertices: Seq<Vertex>) -> Canvas {
        self.paint(outline(vertices), self.current)
    }

    /// The polygon filled with `color`: on each scanline, the cells between
    /// paired edge crossings are overwritten. Fewer than three vertices
    /// change nothing.
    pub open spec fn fill_polygon(self, vertices: Seq<Vertex>, color: Color) -> Canvas {
        self.paint(filled_region(vertices), color)
    }
}

/// No edge is drawn before the first; with each edge the drawn part of the
/// outline grows by the line from a vertex to the one after it.
pub proof fn lemma_outline_step(vertices: Seq<Vertex>, k: int)
    requires
        0 <= k,
    ensures
        outline_upto(vertices, 0) == Set::<(int, int)>::empty(),
        outline_upto(vertices, k + 1) == outline_upto(vertices, k).union(
            line_region(vertices[k], edge_end(vertices, k)),
        ),
{
    let done = outline_upto(vertices, k);
    let edge = line_region(vertices[k], edge_end(vertices, k));
    let next = outline_upto(vertices, k + 1);
    assert forall|p: (int, int)| done.union(edge).contains(p) == next.contains(p) by {
        if done.contains(p) {
            let j = choose|j: int|
                0 <= j < k && line_region(vertices[j], edge_end(vertices, j)).contains(p);
            assert(0 <= j < k + 1 && line_region(vertices[j], edge_end(vertices, j)).contains(p));
        }
        if edge.contains(p) {
            assert(0 <= k < k + 1 && line_region(vertices[k], edge_end(vertices, k)).contains(p));
        }
        if next.contains(p) {
            let j = choose|j: int|
                0 <= j < k + 1 && line_region(vertices[j], edge_end(vertices, j)).contains(p);
            if j < k {
                assert(done.contains(p));
            }
        }
    }
    assert(done.union(edge) =~= next);
    assert(outline_upto(vertices, 0) =~= Set::<(int, int)>::empty());
}

/// Fewer than two vertices have no outline to draw, and fewer than three
/// enclose nothing to fill: the buffer stays as it is.
pub proof fn lemma_degenerate_polygon(canvas: Canvas, vertices: Seq<Vertex>, color: Color)
    ensures
        vertices.len() < 2 ==> canvas.draw_polygon(vertices) == canvas,
        vertices.len() < 3 ==> canvas.fill_polygon(vertices, color) == canvas,
{
    canvas.lemma_paint_empty(canvas.current);
    canvas.lemma_paint_empty(color);
}

/// The outline of a triangle is its three sides, the last of them leading
/// back to the first vertex: drawing the triangle is drawing the three lines.
pub proof fn lemma_triangle_outline(canvas: Canvas, a: Vertex, b: Vertex, c: Vertex)
    ensures
        canvas.draw_polygon(seq![a, b, c]) == canvas.draw_line(a, b).draw_line(b, c).draw_line(
            c,
            a,
        ),
{
    let vertices = seq![a, b, c];
    let color = canvas.current;
    let sides = line_region(a, b).union(line_region(b, c)).union(line_region(c, a));
    assert forall|p: (int, int)| outline(vertices).contains(p) == sides.contains(p) by {
        assert(edge_end(vertices, 0) == b);
        assert(edge_end(vertices, 1) == c);
        assert(edge_end(vertices, 2) == a);
        if sides.contains(p) {
            let i: int = if line_region(a, b).contains(p) {
                0
            } else if line_region(b, c).contains(p) {
                1
            } else {
                2
            };
            assert(0 <= i < 3 && line_region(vertices[i], edge_end(vertices, i)).contains(p));
        }
    }
    assert(outline(vertices) =~= sides);
    canvas.lemma_paint_union(line_region(a, b), line_region(b, c), color);
    canvas.lemma_paint_union(line_region(a, b).union(line_region(b, c)), line_region(c, a), color);
}

/// Filling a polygon and then drawing its outline leaves every cell on the
/// outline in the drawing color, every other cell of the filled region in
/// the fill color, and all remaining cells as they were.
pub proof fn lemma_fill_then_outline(
    canvas: Canvas,
    vertices: Seq<Vertex>,
    fill_color: Color,
    x: int,
    y: int,
)
    requires
        canvas.wf(),
        canvas.in_bounds(x, y),
    ensures
        canvas.fill_polygon(vertices, fill_color).draw_polygon(vertices).pixel(x, y) == if outline(
            vertices,
        ).contains((x, y)) {
            canvas.current
        } else if filled_region(vertices).contains((x, y)) {
            fill_color
        } else {
            canvas.pixel(x, y)
        },
{
    let filled = canvas.fill_polygon(vertices, fill_color);
    canvas.lemma_paint_wf(filled_region(vertices), fill_color);
    canvas.lemma_paint_pixel(filled_region(vertices), fill_color, x, y);
    filled.lemma_paint_pixel(outline(vertices), filled.current, x, y);
}

/// Filling an upright rectangle, given by its corners in order around it,
/// paints on every row from the top one down to the one above the bottom
/// edge the columns from the left edge to the right edge, both included. The
/// row of the bottom edge itself is not painted: no edge crosses it.
pub proof fn lemma_fill_rectangle(a: Vertex, b: Vertex, c: Vertex, d: Vertex, x: int, y: int)
    requires
        a.y == b.y,
        b.x == c.x,
        c.y == d.y,
        d.x == a.x,
        a.x <= b.x,
        a.y < c.y,
    ensures
        filled_region(seq![a, b, c, d]).contains((x, y)) <==> (a.x <= x <= b.x && a.y <= y < c.y),
{
    let vertices = seq![a, b, c, d];
    let height = c.y - a.y;
    assert(edge_end(vertices, 0) == b);
    assert(edge_end(vertices, 1) == c);
    assert(edge_end(vertices, 2) == d);
    assert(edge_end(vertices, 3) == a);
    reveal_with_fuel(crossings_upto, 5);
    if a.y <= y < c.y {
        let right = Ratio { num: b.x * height, den: height };
        let left = Ratio { num: a.x * height, den: height };
        assert(crossing_at(b, c, y) == right) by {
            assert((y - b.y) * (c.x - b.x) == 0) by (nonlinear_arith)
                requires
                    c.x - b.x == 0,
            ;
        }
        assert(crossing_at(d, a, y) == left) by {
            assert((y - d.y) * (a.x - d.x) == 0) by (nonlinear_arith)
                requires
                    a.x - d.x == 0,
            ;
            assert(-(d.x * (a.y - d.y)) == a.x * height) by (nonlinear_arith)
                requires
                    d.x == a.x,
                    height == -(a.y - d.y),
            ;
        }
        assert(crossings(vertices, y) =~= seq![right, left]);
        let xs = seq![left, right];
        assert(left.le(right)) by (nonlinear_arith)
            requires
                left.num == a.x * height,
                right.num == b.x * height,
                left.den == height,
                right.den == height,
                a.x <= b.x,
                height > 0,
        ;
        assert(arranges(xs, crossings(vertices, y))) by {
            lemma_seq_union_to_multiset_commutative(seq![left], seq![right]);
            assert(seq![left] + seq![right] =~= xs);
            assert(seq![right] + seq![left] =~= seq![right, left]);
        }
        lemma_scanline_covers(vertices, y, xs, x);
        assert(left.ceil() == a.x) by {
            lemma_div_multiples_vanish(-(a.x as int), height);
            assert(height * (-(a.x as int)) == -(a.x * height)) by (nonlinear_arith);
        }
        assert(right.floor() == b.x) by {
            lemma_div_multiples_vanish(b.x as int, height);
            assert(height * (b.x as int) == b.x * height) by (nonlinear_arith);
        }
        if spans_cover(xs, x) {
            let k = choose|k: int| in_span(xs, k, x);
            assert(k == 0);
        }
        if a.x <= x <= b.x {
            assert(in_span(xs, 0, x));
        }
    } else {
        assert(crossings(vertices, y) =~= Seq::<Ratio>::empty());
        lemma_no_crossings_no_cover(vertices, x, y);
    }
}

} // verus!
