use filling_polygon::scanline::{scanline_crossings, sort_crossings, vertical_extent, Crossing};
use filling_polygon::vertex::{Vertex, VertexExt};

fn v(x: i32, y: i32) -> Vertex {
    Vertex::new(x, y, 0)
}

fn rounded(crossings: &[Crossing]) -> Vec<(i128, i128)> {
    crossings.iter().map(|c| (c.floor(), c.ceil())).collect()
}

#[test]
fn edge_crosses_rows_from_its_upper_end_to_just_above_its_lower_end() {
    let a = v(0, 0);
    let b = v(5, 3);
    assert!(Crossing::of_edge(a, b, -1).is_none());
    assert!(Crossing::of_edge(a, b, 0).is_some());
    assert!(Crossing::of_edge(a, b, 1).is_some());
    assert!(Crossing::of_edge(a, b, 2).is_some());
    assert!(Crossing::of_edge(a, b, 3).is_none());
    assert!(Crossing::of_edge(b, a, 0).is_some());
    assert!(Crossing::of_edge(b, a, 3).is_none());
}

#[test]
fn level_edge_crosses_no_row() {
    assert!(Crossing::of_edge(v(0, 4), v(9, 4), 4).is_none());
    assert!(Crossing::of_edge(v(0, 4), v(9, 4), 3).is_none());
    assert!(Crossing::of_edge(v(0, 4), v(9, 4), 5).is_none());
    assert!(Crossing::of_edge(v(2, 2), v(2, 2), 2).is_none());
}

#[test]
fn crossing_is_the_interpolated_abscissa() {
    // x = 0 + (y - 0) * (5 - 0) / (3 - 0)
    let at_0 = Crossing::of_edge(v(0, 0), v(5, 3), 0).unwrap();
    assert_eq!((at_0.floor(), at_0.ceil()), (0, 0));
    let at_1 = Crossing::of_edge(v(0, 0), v(5, 3), 1).unwrap();
    assert_eq!((at_1.floor(), at_1.ceil()), (1, 2));
    let at_2 = Crossing::of_edge(v(0, 0), v(5, 3), 2).unwrap();
    assert_eq!((at_2.floor(), at_2.ceil()), (3, 4));
    // x = 0 + (2 - 0) * (10 - 0) / (5 - 0)
    let whole = Crossing::of_edge(v(0, 0), v(10, 5), 2).unwrap();
    assert_eq!((whole.floor(), whole.ceil()), (4, 4));
}

#[test]
fn crossing_does_not_depend_on_the_direction_of_the_edge() {
    let down = Crossing::of_edge(v(7, 3), v(2, 0), 1).unwrap();
    let up = Crossing::of_edge(v(2, 0), v(7, 3), 1).unwrap();
    assert_eq!((down.floor(), down.ceil()), (3, 4));
    assert_eq!((up.floor(), up.ceil()), (3, 4));
    assert!(down.le(&up));
    assert!(up.le(&down));
}

#[test]
fn negative_crossings_round_toward_the_right_side() {
    // x = -5 + 1 * 5 / 3 = -10/3
    let c = Crossing::of_edge(v(-5, 0), v(0, 3), 1).unwrap();
    assert_eq!(c.floor(), -4);
    assert_eq!(c.ceil(), -3);
    // x = -6 + 1 * 6 / 3 = -4
    let whole = Crossing::of_edge(v(-6, 0), v(0, 3), 1).unwrap();
    assert_eq!(whole.floor(), -4);
    assert_eq!(whole.ceil(), -4);
}

#[test]
fn crossings_of_extreme_edges_are_exact() {
    let c = Crossing::of_edge(v(i32::MIN, i32::MIN), v(i32::MAX, i32::MAX), 0).unwrap();
    assert_eq!((c.floor(), c.ceil()), (0, 0));
    let d = Crossing::of_edge(v(i32::MAX, i32::MIN), v(i32::MIN, i32::MAX), -1).unwrap();
    assert_eq!((d.floor(), d.ceil()), (0, 0));
    let e = Crossing::of_edge(v(i32::MIN, i32::MIN), v(i32::MAX, i32::MAX), i32::MAX - 1).unwrap();
    assert_eq!((e.floor(), e.ceil()), (i32::MAX as i128 - 1, i32::MAX as i128 - 1));
}

#[test]
fn le_orders_crossings_by_value() {
    let five_thirds = Crossing::of_edge(v(0, 0), v(5, 3), 1).unwrap();
    let two = Crossing::of_edge(v(2, 0), v(2, 9), 1).unwrap();
    let three_halves = Crossing::of_edge(v(0, 0), v(3, 2), 1).unwrap();
    assert!(five_thirds.le(&two));
    assert!(!two.le(&five_thirds));
    assert!(three_halves.le(&five_thirds));
    assert!(!five_thirds.le(&three_halves));
    assert!(two.le(&two));
}

#[test]
fn scanline_crossings_come_in_edge_order() {
    let shape = [v(0, 0), v(2, 0), v(2, 4), v(4, 4), v(4, 0), v(6, 0), v(6, 6), v(0, 6)];
    let found = scanline_crossings(&shape, 2);
    assert_eq!(rounded(&found), vec![(2, 2), (4, 4), (6, 6), (0, 0)]);
    let higher = scanline_crossings(&shape, 5);
    assert_eq!(rounded(&higher), vec![(6, 6), (0, 0)]);
    assert!(scanline_crossings(&shape, 6).is_empty());
    assert!(scanline_crossings(&shape, -1).is_empty());
}

#[test]
fn scanline_crossings_include_the_closing_edge() {
    let triangle = [v(0, 0), v(4, 0), v(0, 4)];
    let found = scanline_crossings(&triangle, 1);
    assert_eq!(rounded(&found), vec![(3, 3), (0, 0)]);
}

#[test]
fn scanline_crossings_of_few_vertices() {
    assert!(scanline_crossings(&[], 0).is_empty());
    assert!(scanline_crossings(&[v(1, 1)], 1).is_empty());
    assert_eq!(rounded(&scanline_crossings(&[v(0, 0), v(4, 4)], 2)), vec![(2, 2), (2, 2)]);
}

#[test]
fn sort_puts_crossings_in_ascending_order() {
    let shape = [v(0, 0), v(2, 0), v(2, 4), v(4, 4), v(4, 0), v(6, 0), v(6, 6), v(0, 6)];
    let mut found = scanline_crossings(&shape, 2);
    sort_crossings(&mut found);
    assert_eq!(rounded(&found), vec![(0, 0), (2, 2), (4, 4), (6, 6)]);
}

#[test]
fn sort_orders_fractions_between_whole_numbers() {
    let mut found = vec![
        Crossing::of_edge(v(2, 0), v(2, 9), 1).unwrap(),
        Crossing::of_edge(v(0, 0), v(5, 3), 1).unwrap(),
        Crossing::of_edge(v(1, 0), v(1, 9), 1).unwrap(),
        Crossing::of_edge(v(0, 0), v(3, 2), 1).unwrap(),
        Crossing::of_edge(v(-5, 0), v(0, 3), 1).unwrap(),
    ];
    sort_crossings(&mut found);
    assert_eq!(rounded(&found), vec![(-4, -3), (1, 1), (1, 2), (1, 2), (2, 2)]);
    for pair in found.windows(2) {
        assert!(pair[0].le(&pair[1]));
    }
    assert!(!found[3].le(&found[2]));
}

#[test]
fn sort_of_nothing_or_one_crossing() {
    let mut none: Vec<Crossing> = Vec::new();
    sort_crossings(&mut none);
    assert!(none.is_empty());
    let mut one = vec![Crossing::of_edge(v(0, 0), v(5, 3), 1).unwrap()];
    sort_crossings(&mut one);
    assert_eq!(rounded(&one), vec![(1, 2)]);
}

#[test]
fn vertical_extent_is_the_least_and_the_greatest_ordinate() {
    assert_eq!(vertical_extent(&[v(0, 5)]), Some((5, 5)));
    assert_eq!(vertical_extent(&[v(0, 5), v(9, -3), v(1, 8), v(2, 0)]), Some((-3, 8)));
    assert_eq!(vertical_extent(&[v(0, i32::MAX), v(0, i32::MIN)]), Some((i32::MIN, i32::MAX)));
}

#[test]
fn vertical_extent_of_no_vertex_is_none() {
    assert_eq!(vertical_extent(&[]), None);
}
