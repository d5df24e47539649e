use filling_polygon::color::Color;
use filling_polygon::framebuffer::Framebuffer;

#[test]
fn test_framebuffer() {
    let mut framebuffer = Framebuffer::new(10, 10);
    let background_color = Color::from_hex(0xFFFFFF);
    let foreground_color = Color::from_hex(0x000000);

    framebuffer.set_background_color(0xFFFFFF);
    framebuffer.clear();

    for pixel in framebuffer.get_buffer().iter() {
        assert_eq!(*pixel, background_color);
    }

    framebuffer.set_current_color(0x000000);
    framebuffer.point(5, 5);

    assert_eq!(framebuffer.get_buffer()[5 * 10 + 5], foreground_color);
}

fn white() -> Color {
    Color::new(255, 255, 255)
}

fn black() -> Color {
    Color::new(0, 0, 0)
}

#[test]
fn new_buffer_is_all_white() {
    let framebuffer = Framebuffer::new(7, 3);
    let cells = framebuffer.get_buffer();
    assert_eq!(cells.len(), 21);
    assert!(cells.iter().all(|cell| *cell == white()));
}

#[test]
fn new_buffer_draws_in_black() {
    let mut framebuffer = Framebuffer::new(4, 4);
    framebuffer.point(1, 2);
    assert_eq!(framebuffer.get_buffer()[2 * 4 + 1], black());
}

#[test]
fn empty_buffers_have_no_cells() {
    assert_eq!(Framebuffer::new(0, 0).get_buffer().len(), 0);
    assert_eq!(Framebuffer::new(5, 0).get_buffer().len(), 0);
    assert_eq!(Framebuffer::new(0, 5).get_buffer().len(), 0);
    let mut framebuffer = Framebuffer::new(0, 5);
    framebuffer.point(0, 0);
    framebuffer.clear();
    assert_eq!(framebuffer.get_buffer().len(), 0);
}

#[test]
fn clear_sets_every_cell_to_the_background() {
    let mut framebuffer = Framebuffer::new(10, 10);
    framebuffer.point(3, 3);
    framebuffer.set_background_color(0x102030);
    framebuffer.clear();
    let cells = framebuffer.get_buffer();
    assert_eq!(cells.len(), 100);
    assert!(cells.iter().all(|cell| *cell == Color::new(0x10, 0x20, 0x30)));
}

#[test]
fn clear_twice_is_clear_once() {
    let mut once = Framebuffer::new(6, 5);
    once.set_background_color(0x00FF00);
    once.point(2, 2);
    once.clear();
    let mut twice = Framebuffer::new(6, 5);
    twice.set_background_color(0x00FF00);
    twice.point(2, 2);
    twice.clear();
    twice.clear();
    assert_eq!(once.get_buffer(), twice.get_buffer());
}

#[test]
fn point_changes_one_cell_and_no_other() {
    let mut framebuffer = Framebuffer::new(10, 10);
    framebuffer.set_background_color(0xFFFFFF);
    framebuffer.clear();
    framebuffer.set_current_color(0x000000);
    framebuffer.point(5, 5);
    for (index, cell) in framebuffer.get_buffer().iter().enumerate() {
        if index == 5 * 10 + 5 {
            assert_eq!(*cell, black());
        } else {
            assert_eq!(*cell, white());
        }
    }
}

#[test]
fn point_is_row_major() {
    let mut framebuffer = Framebuffer::new(4, 3);
    framebuffer.point(3, 1);
    let cells = framebuffer.get_buffer();
    assert_eq!(cells[1 * 4 + 3], black());
    assert_eq!(cells.iter().filter(|cell| **cell == black()).count(), 1);
}

#[test]
fn set_pixel_writes_the_given_color() {
    let mut framebuffer = Framebuffer::new(4, 3);
    let red = Color::new(255, 0, 0);
    framebuffer.set_pixel(0, 2, red);
    let cells = framebuffer.get_buffer();
    assert_eq!(cells[2 * 4], red);
    assert_eq!(cells.iter().filter(|cell| **cell == red).count(), 1);
    assert_eq!(cells.iter().filter(|cell| **cell == white()).count(), 11);
}

#[test]
fn set_pixel_outside_the_grid_is_ignored() {
    let mut framebuffer = Framebuffer::new(4, 3);
    let red = Color::new(255, 0, 0);
    framebuffer.set_pixel(-1, 0, red);
    framebuffer.set_pixel(0, -1, red);
    framebuffer.set_pixel(4, 0, red);
    framebuffer.set_pixel(0, 3, red);
    framebuffer.set_pixel(isize::MAX, isize::MAX, red);
    framebuffer.set_pixel(isize::MIN, isize::MIN, red);
    framebuffer.set_pixel(5, 1, red);
    assert!(framebuffer.get_buffer().iter().all(|cell| *cell == white()));
}

#[test]
fn point_outside_the_grid_is_ignored() {
    let mut framebuffer = Framebuffer::new(4, 3);
    framebuffer.point(-1, 1);
    framebuffer.point(4, 1);
    framebuffer.point(1, 3);
    framebuffer.point(1, -7);
    assert!(framebuffer.get_buffer().iter().all(|cell| *cell == white()));
}

#[test]
fn setters_do_not_repaint() {
    let mut framebuffer = Framebuffer::new(3, 3);
    framebuffer.point(1, 1);
    framebuffer.set_background_color(0x0000FF);
    framebuffer.set_current_color(0xFF0000);
    let cells = framebuffer.get_buffer();
    assert_eq!(cells[4], black());
    assert_eq!(cells.iter().filter(|cell| **cell == white()).count(), 8);
}

#[test]
fn set_current_color_takes_effect_on_the_next_point() {
    let mut framebuffer = Framebuffer::new(3, 3);
    framebuffer.set_current_color(0x123456);
    framebuffer.point(0, 0);
    framebuffer.set_current_color(0x654321);
    framebuffer.point(2, 2);
    let cells = framebuffer.get_buffer();
    assert_eq!(cells[0], Color::new(0x12, 0x34, 0x56));
    assert_eq!(cells[8], Color::new(0x65, 0x43, 0x21));
}
