use filling_polygon::color::Color;
use filling_polygon::framebuffer::Framebuffer;
use filling_polygon::line_impl::Line;
use filling_polygon::vertex::{Vertex, VertexExt};

fn black() -> Color {
    Color::new(0, 0, 0)
}

fn white() -> Color {
    Color::new(255, 255, 255)
}

fn red() -> Color {
    Color::new(255, 0, 0)
}

fn polygon(points: &[(i32, i32)]) -> Vec<Vertex> {
    points.iter().map(|p| Vertex::new(p.0, p.1, 0)).collect()
}

/// The positions of the cells of the given color, row by row.
fn cells_of(framebuffer: &Framebuffer, width: usize, color: Color) -> Vec<(usize, usize)> {
    let mut found = Vec::new();
    for (index, cell) in framebuffer.get_buffer().iter().enumerate() {
        if *cell == color {
            found.push((index % width, index / width));
        }
    }
    found
}

/// The positions of columns `first..=last` on each of the given rows.
fn block(rows: std::ops::RangeInclusive<usize>, first: usize, last: usize) -> Vec<(usize, usize)> {
    let mut cells = Vec::new();
    for y in rows {
        for x in first..=last {
            cells.push((x, y));
        }
    }
    cells
}

#[test]
fn triangle_outline_is_three_lines_and_closes() {
    let a = Vertex::new(1, 1, 0);
    let b = Vertex::new(10, 3, 0);
    let c = Vertex::new(4, 12, 0);
    let mut outlined = Framebuffer::new(16, 16);
    outlined.draw_polygon(&[a, b, c]);
    let mut lines = Framebuffer::new(16, 16);
    lines.draw_line(a, b);
    lines.draw_line(b, c);
    lines.draw_line(c, a);
    assert_eq!(outlined.get_buffer(), lines.get_buffer());
    let mut open = Framebuffer::new(16, 16);
    open.draw_line(a, b);
    open.draw_line(b, c);
    assert_ne!(outlined.get_buffer(), open.get_buffer());
}

#[test]
fn outline_of_a_square_is_its_four_sides() {
    let mut framebuffer = Framebuffer::new(6, 6);
    framebuffer.draw_polygon(&polygon(&[(1, 1), (4, 1), (4, 4), (1, 4)]));
    let mut expected = Vec::new();
    for y in 1..=4 {
        for x in 1..=4 {
            if x == 1 || x == 4 || y == 1 || y == 4 {
                expected.push((x, y));
            }
        }
    }
    assert_eq!(cells_of(&framebuffer, 6, black()), expected);
}

#[test]
fn outline_of_no_vertex_or_one_draws_nothing() {
    let mut framebuffer = Framebuffer::new(8, 8);
    framebuffer.draw_polygon(&[]);
    assert!(framebuffer.get_buffer().iter().all(|cell| *cell == white()));
    framebuffer.draw_polygon(&[Vertex::new(3, 3, 0)]);
    assert!(framebuffer.get_buffer().iter().all(|cell| *cell == white()));
}

#[test]
fn outline_of_two_vertices_is_the_line_there_and_back() {
    let a = Vertex::new(0, 0, 0);
    let b = Vertex::new(2, 1, 0);
    let mut outlined = Framebuffer::new(4, 4);
    outlined.draw_polygon(&[a, b]);
    assert_eq!(cells_of(&outlined, 4, black()), vec![(0, 0), (1, 0), (1, 1), (2, 1)]);
}

#[test]
fn outline_uses_the_current_color() {
    let mut framebuffer = Framebuffer::new(6, 6);
    framebuffer.set_current_color(0xFF0000);
    framebuffer.draw_polygon(&polygon(&[(0, 0), (5, 0), (5, 5), (0, 5)]));
    assert_eq!(cells_of(&framebuffer, 6, red()).len(), 20);
    assert_eq!(cells_of(&framebuffer, 6, white()).len(), 16);
}

#[test]
fn filled_rectangle_covers_every_row_but_that_of_its_bottom_edge() {
    let mut framebuffer = Framebuffer::new(12, 12);
    framebuffer.fill_polygon(&polygon(&[(0, 0), (10, 0), (10, 10), (0, 10)]), red());
    assert_eq!(cells_of(&framebuffer, 12, red()), block(0..=9, 0, 10));
    let cells = framebuffer.get_buffer();
    for x in 0..12 {
        assert_eq!(cells[10 * 12 + x], white());
    }
}

#[test]
fn fill_of_fewer_than_three_vertices_paints_nothing() {
    let mut framebuffer = Framebuffer::new(12, 12);
    framebuffer.fill_polygon(&[], red());
    framebuffer.fill_polygon(&polygon(&[(3, 3)]), red());
    framebuffer.fill_polygon(&polygon(&[(0, 0), (10, 10)]), red());
    assert!(framebuffer.get_buffer().iter().all(|cell| *cell == white()));
}

#[test]
fn fill_takes_its_color_from_the_argument() {
    let mut framebuffer = Framebuffer::new(5, 5);
    framebuffer.set_current_color(0x00FF00);
    framebuffer.fill_polygon(&polygon(&[(1, 1), (3, 1), (3, 3), (1, 3)]), red());
    assert_eq!(cells_of(&framebuffer, 5, red()), block(1..=2, 1, 3));
    assert_eq!(cells_of(&framebuffer, 5, Color::new(0, 255, 0)).len(), 0);
}

#[test]
fn filled_right_triangle_narrows_row_by_row() {
    let mut framebuffer = Framebuffer::new(6, 6);
    framebuffer.fill_polygon(&polygon(&[(0, 0), (4, 0), (0, 4)]), red());
    let mut expected = Vec::new();
    for y in 0..4 {
        for x in 0..=(4 - y) {
            expected.push((x, y));
        }
    }
    assert_eq!(cells_of(&framebuffer, 6, red()), expected);
}

#[test]
fn spans_run_from_the_ceiling_of_one_crossing_to_the_floor_of_the_next() {
    // at y = 1 the edges cross at 4/3 and 11/3, at y = 2 at 2/3 and 16/3
    let mut framebuffer = Framebuffer::new(8, 4);
    framebuffer.fill_polygon(&polygon(&[(2, 0), (0, 3), (7, 3)]), red());
    assert_eq!(
        cells_of(&framebuffer, 8, red()),
        vec![(2, 0), (2, 1), (3, 1), (1, 2), (2, 2), (3, 2), (4, 2), (5, 2)]
    );
}

#[test]
fn crossings_are_paired_in_ascending_order() {
    // a U shape: the rows through the notch have four crossings
    let shape = polygon(&[(0, 0), (2, 0), (2, 4), (4, 4), (4, 0), (6, 0), (6, 6), (0, 6)]);
    let mut framebuffer = Framebuffer::new(8, 8);
    framebuffer.fill_polygon(&shape, red());
    let mut expected = Vec::new();
    for y in 0..6 {
        for x in 0..=6 {
            if y >= 4 || x != 3 {
                expected.push((x, y));
            }
        }
    }
    assert_eq!(cells_of(&framebuffer, 8, red()), expected);
}

#[test]
fn fill_does_not_depend_on_the_direction_around_the_polygon() {
    let forward = polygon(&[(1, 1), (8, 2), (6, 9), (2, 7)]);
    let mut backward = forward.clone();
    backward.reverse();
    let mut a = Framebuffer::new(10, 10);
    a.fill_polygon(&forward, red());
    let mut b = Framebuffer::new(10, 10);
    b.fill_polygon(&backward, red());
    assert_eq!(a.get_buffer(), b.get_buffer());
}

#[test]
fn fill_is_clipped_to_the_grid() {
    let mut framebuffer = Framebuffer::new(10, 10);
    framebuffer.fill_polygon(&polygon(&[(-5, -5), (3, -5), (3, 3), (-5, 3)]), red());
    assert_eq!(cells_of(&framebuffer, 10, red()), block(0..=2, 0, 3));
    let mut other = Framebuffer::new(10, 10);
    other.fill_polygon(&polygon(&[(7, 8), (20, 8), (20, 30), (7, 30)]), red());
    assert_eq!(cells_of(&other, 10, red()), block(8..=9, 7, 9));
}

#[test]
fn fill_outside_the_grid_paints_nothing() {
    let mut framebuffer = Framebuffer::new(10, 10);
    framebuffer.fill_polygon(&polygon(&[(-9, -9), (-2, -9), (-2, -2), (-9, -2)]), red());
    framebuffer.fill_polygon(&polygon(&[(20, 0), (30, 0), (30, 9), (20, 9)]), red());
    framebuffer.fill_polygon(&polygon(&[(0, 40), (9, 40), (9, 50), (0, 50)]), red());
    assert!(framebuffer.get_buffer().iter().all(|cell| *cell == white()));
}

#[test]
fn fill_with_far_away_vertices_ends() {
    let far = 2_000_000_000;
    let mut framebuffer = Framebuffer::new(4, 4);
    framebuffer.fill_polygon(&polygon(&[(-far, -far), (far, -far), (far, far), (-far, far)]), red());
    assert!(framebuffer.get_buffer().iter().all(|cell| *cell == red()));
}

#[test]
fn flat_polygon_paints_nothing() {
    let mut framebuffer = Framebuffer::new(10, 10);
    framebuffer.fill_polygon(&polygon(&[(1, 4), (8, 4), (5, 4)]), red());
    assert!(framebuffer.get_buffer().iter().all(|cell| *cell == white()));
}

#[test]
fn fill_then_outline_shows_the_outline_on_top() {
    let shape = polygon(&[(1, 1), (8, 1), (8, 8), (1, 8)]);
    let mut framebuffer = Framebuffer::new(10, 10);
    framebuffer.fill_polygon(&shape, red());
    framebuffer.draw_polygon(&shape);
    let cells = framebuffer.get_buffer();
    for y in 0..10 {
        for x in 0..10 {
            let inside = 1 <= x && x <= 8 && 1 <= y && y <= 8;
            let border = inside && (x == 1 || x == 8 || y == 1 || y == 8);
            let expected = if border {
                black()
            } else if inside {
                red()
            } else {
                white()
            };
            assert_eq!(cells[y * 10 + x], expected);
        }
    }
}

#[test]
fn fill_then_outline_of_a_triangle() {
    let shape = polygon(&[(5, 1), (9, 9), (1, 9)]);
    let mut filled = Framebuffer::new(11, 11);
    filled.fill_polygon(&shape, red());
    let mut outlined = Framebuffer::new(11, 11);
    outlined.draw_polygon(&shape);
    let mut both = Framebuffer::new(11, 11);
    both.fill_polygon(&shape, red());
    both.draw_polygon(&shape);
    for index in 0..121 {
        let expected = if outlined.get_buffer()[index] == black() {
            black()
        } else {
            filled.get_buffer()[index]
        };
        assert_eq!(both.get_buffer()[index], expected);
    }
    // the centre lies inside, the corners of the grid outside
    assert_eq!(both.get_buffer()[6 * 11 + 5], red());
    assert_eq!(both.get_buffer()[0], white());
    assert_eq!(both.get_buffer()[120], white());
    assert_eq!(both.get_buffer()[1 * 11 + 5], black());
}

#[test]
fn filling_with_the_background_color_punches_a_hole() {
    let outer = polygon(&[(0, 0), (9, 0), (9, 9), (0, 9)]);
    let hole = polygon(&[(3, 3), (6, 3), (6, 6), (3, 6)]);
    let mut framebuffer = Framebuffer::new(10, 10);
    framebuffer.fill_polygon(&outer, red());
    framebuffer.fill_polygon(&hole, white());
    // the row of the outer bottom edge, and three rows of four cells in the hole
    assert_eq!(cells_of(&framebuffer, 10, white()).len(), 10 + 3 * 4);
    let cells = framebuffer.get_buffer();
    assert_eq!(cells[4 * 10 + 4], white());
    assert_eq!(cells[2 * 10 + 4], red());
    assert_eq!(cells[6 * 10 + 4], red());
}
