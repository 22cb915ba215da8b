use framebrush::{
    AddressingMode, Canvas, Color, Draw, Line, Pixel, RGBu32, Rect, SolidRect, BLUE, RED,
};
use std::cell::RefCell;

fn blank(surface: (usize, usize), canvas: (usize, usize)) -> Canvas<u32> {
    Canvas::new(vec![0u32; surface.0 * surface.1], surface, canvas).ok().unwrap()
}

/// Notes every cell it is drawn at and paints nothing.
struct Recorder {
    seen: RefCell<Vec<(i32, i32)>>,
}

impl Recorder {
    fn new() -> Self {
        Recorder { seen: RefCell::new(Vec::new()) }
    }

    fn cells(&self) -> Vec<(i32, i32)> {
        self.seen.borrow().clone()
    }
}

impl Draw for Recorder {
    type T = u32;

    fn draw(&self, _canvas: &mut Canvas<u32>, x: i32, y: i32) {
        self.seen.borrow_mut().push((x, y));
    }
}

/// Adds one to what the first pixel of the cell holds.
struct Increment;

impl Draw for Increment {
    type T = u32;

    fn draw(&self, canvas: &mut Canvas<u32>, x: i32, y: i32) {
        let next = *canvas.get(x, y) + 1;
        canvas.put(x, y, next);
    }
}

/// Mixes half of its value into what the pixel holds.
struct Half(u32);

impl Color for Half {
    type T = u32;

    fn pixel(&self, previous: u32, _index: usize) -> u32 {
        (previous + self.0) / 2
    }
}

/// Gives each pixel its own buffer position.
struct Position;

impl Color for Position {
    type T = u32;

    fn pixel(&self, _previous: u32, index: usize) -> u32 {
        index as u32
    }
}

fn walked(x0: i32, y0: i32, x1: i32, y1: i32) -> Vec<(i32, i32)> {
    let mut canvas = blank((4, 4), (4, 4));
    let recorder = Recorder::new();
    canvas.line(x0, y0, x1, y1, &recorder);
    recorder.cells()
}

#[test]
fn diagonal_line_visits_four_cells() {
    assert_eq!(walked(0, 0, 3, 3), vec![(0, 0), (1, 1), (2, 2), (3, 3)]);
}

#[test]
fn diagonal_line_fills_four_blocks() {
    let mut canvas = blank((8, 8), (4, 4));
    canvas.fill(RED);
    canvas.line(0, 0, 3, 3, &RGBu32::Pixel(BLUE));
    let buf = canvas.finish();
    for py in 0..8usize {
        for px in 0..8usize {
            let expected = if px / 2 == py / 2 { BLUE } else { RED };
            assert_eq!(buf[py * 8 + px], expected);
        }
    }
}

#[test]
fn line_of_a_gentle_slope() {
    assert_eq!(
        walked(0, 0, 5, 2),
        vec![(0, 0), (1, 0), (2, 1), (3, 1), (4, 2), (5, 2)]
    );
    assert_eq!(walked(0, 0, 4, 2), vec![(0, 0), (1, 1), (2, 1), (3, 2), (4, 2)]);
}

#[test]
fn line_of_a_steep_slope() {
    assert_eq!(
        walked(0, 0, 2, 5),
        vec![(0, 0), (0, 1), (1, 2), (1, 3), (2, 4), (2, 5)]
    );
    assert_eq!(walked(0, 0, 2, -4), vec![(0, 0), (1, -1), (1, -2), (2, -3), (2, -4)]);
}

#[test]
fn line_towards_smaller_coordinates() {
    assert_eq!(
        walked(3, 1, -2, -1),
        vec![(3, 1), (2, 1), (1, 0), (0, 0), (-1, -1), (-2, -1)]
    );
    assert_eq!(walked(0, 0, -4, 2), vec![(0, 0), (-1, 1), (-2, 1), (-3, 2), (-4, 2)]);
}

#[test]
fn line_along_an_axis() {
    assert_eq!(walked(1, 0, 4, 0), vec![(1, 0), (2, 0), (3, 0), (4, 0)]);
    assert_eq!(walked(0, 3, 0, 0), vec![(0, 3), (0, 2), (0, 1), (0, 0)]);
}

#[test]
fn line_of_one_cell() {
    assert_eq!(walked(2, 2, 2, 2), vec![(2, 2)]);
}

#[test]
fn line_at_the_limits_of_the_coordinates() {
    let cells = walked(i32::MAX - 2, i32::MIN, i32::MAX, i32::MIN + 1);
    assert_eq!(
        cells,
        vec![
            (i32::MAX - 2, i32::MIN),
            (i32::MAX - 1, i32::MIN + 1),
            (i32::MAX, i32::MIN + 1)
        ]
    );
}

#[test]
fn every_line_is_connected_and_ends_at_its_end_points() {
    for x1 in -6..7 {
        for y1 in -6..7 {
            let cells = walked(1, -1, x1, y1);
            assert_eq!(cells[0], (1, -1));
            assert_eq!(*cells.last().unwrap(), (x1, y1));
            let long = std::cmp::max((x1 - 1).abs(), (y1 + 1).abs());
            assert_eq!(cells.len() as i32, long + 1);
            for pair in cells.windows(2) {
                assert!((pair[1].0 - pair[0].0).abs() <= 1);
                assert!((pair[1].1 - pair[0].1).abs() <= 1);
                assert_ne!(pair[0], pair[1]);
            }
            for i in 0..cells.len() {
                for j in i + 1..cells.len() {
                    assert_ne!(cells[i], cells[j]);
                }
            }
        }
    }
}

#[test]
fn line_shape_draws_from_its_origin_to_its_end() {
    let mut canvas = blank((4, 4), (4, 4));
    let recorder = Recorder::new();
    canvas.draw(3, 0, &Line { end_x: 0, end_y: 1, d: &recorder });
    assert_eq!(recorder.cells(), vec![(3, 0), (2, 0), (1, 1), (0, 1)]);
}

#[test]
fn rect_draws_each_cell_once_row_by_row() {
    let mut canvas = blank((4, 4), (4, 4));
    let recorder = Recorder::new();
    canvas.rect(-1, 2, 3, 2, &recorder);
    assert_eq!(
        recorder.cells(),
        vec![(-1, 2), (0, 2), (1, 2), (-1, 3), (0, 3), (1, 3)]
    );
}

#[test]
fn rect_without_cells_draws_nothing() {
    let mut canvas = blank((4, 4), (4, 4));
    let recorder = Recorder::new();
    canvas.rect(0, 0, 0, 3, &recorder);
    canvas.rect(0, 0, 3, 0, &recorder);
    assert_eq!(recorder.cells(), vec![]);
}

#[test]
fn rect_stops_at_the_last_coordinate() {
    let mut canvas = blank((4, 4), (4, 4));
    let recorder = Recorder::new();
    canvas.rect(i32::MAX - 1, i32::MAX, 5, 7, &recorder);
    assert_eq!(
        recorder.cells(),
        vec![(i32::MAX - 1, i32::MAX), (i32::MAX, i32::MAX)]
    );
}

#[test]
fn rect_fills_its_block() {
    let mut canvas = blank((8, 8), (4, 4));
    canvas.rect(1, 1, 2, 3, &RGBu32::Rgb(1, 2, 3));
    let buf = canvas.finish();
    for py in 0..8usize {
        for px in 0..8usize {
            let inside = (2..6).contains(&px) && (2..8).contains(&py);
            assert_eq!(buf[py * 8 + px], if inside { 0x010203 } else { 0 });
        }
    }
}

#[test]
fn rect_evaluates_its_drawable_per_cell() {
    let mut canvas = blank((4, 2), (2, 1));
    canvas.set(0, 0, 10);
    canvas.set(2, 0, 20);
    canvas.rect(0, 0, 2, 1, &Increment);
    assert_eq!(canvas.finish(), vec![11, 11, 21, 21, 11, 11, 21, 21]);
}

#[test]
fn clamped_cells_are_drawn_again_by_a_rect() {
    let mut canvas = blank((2, 1), (2, 1));
    canvas.rect(-2, 0, 4, 1, &Increment);
    assert_eq!(canvas.finish(), vec![3, 1]);
}

#[test]
fn shapes_nest() {
    let mut canvas = blank((6, 6), (6, 6));
    let dot = Pixel(1u32);
    let row = Line { end_x: 2, end_y: 0, d: &dot };
    canvas.rect(0, 0, 1, 2, &row);
    let buf = canvas.finish();
    for py in 0..6usize {
        for px in 0..6usize {
            let on_first = py == 0 && px <= 2;
            let on_second = (px, py) == (0, 1);
            assert_eq!(buf[py * 6 + px], if on_first || on_second { 1 } else { 0 });
        }
    }
}

#[test]
fn pixel_draws_its_value() {
    let mut canvas = blank((4, 4), (2, 2));
    canvas.draw(1, 0, &Pixel(6u32));
    assert_eq!(
        canvas.finish(),
        vec![0, 0, 6, 6, 0, 0, 6, 6, 0, 0, 0, 0, 0, 0, 0, 0]
    );
}

#[test]
fn solid_rect_fills_the_scaled_block_in_one_pass() {
    let mut canvas = blank((10, 2), (4, 1));
    canvas.draw(1, 0, &SolidRect { w: 2, h: 1, c: &RGBu32::Pixel(5) });
    assert_eq!(
        canvas.finish(),
        vec![0, 0, 0, 5, 5, 5, 5, 5, 0, 0, 0, 0, 0, 5, 5, 5, 5, 5, 0, 0]
    );
}

#[test]
fn solid_rect_is_clipped_at_the_far_edge() {
    let mut canvas = blank((4, 4), (2, 2));
    canvas.draw(1, 1, &SolidRect { w: usize::MAX, h: usize::MAX, c: &Pixel(5u32) });
    assert_eq!(
        canvas.finish(),
        vec![0, 0, 0, 0, 0, 0, 0, 0, 0, 0, 5, 5, 0, 0, 5, 5]
    );
}

#[test]
fn solid_rect_in_wrap_mode_ends_with_the_surface() {
    let mut canvas =
        Canvas::with_mode(vec![0u32; 4], (4, 1), (4, 1), AddressingMode::Wrap).ok().unwrap();
    canvas.draw(-1, 0, &SolidRect { w: 2, h: 1, c: &Pixel(5u32) });
    assert_eq!(canvas.finish(), vec![0, 0, 0, 5]);
}

#[test]
fn a_colour_sees_the_previous_value() {
    let mut canvas = blank((2, 2), (1, 1));
    canvas.fill(10);
    canvas.set(1, 0, 30);
    canvas.shade(0, 0, 1, 1, &Half(20));
    assert_eq!(canvas.finish(), vec![15, 25, 15, 15]);
}

#[test]
fn a_colour_sees_the_buffer_position() {
    let mut canvas = blank((4, 2), (2, 2));
    canvas.draw(1, 1, &SolidRect { w: 1, h: 1, c: &Position });
    assert_eq!(canvas.finish(), vec![0, 0, 0, 0, 0, 0, 6, 7]);
}

#[test]
fn a_named_colour_draws_itself() {
    let mut canvas = blank((4, 2), (2, 1));
    canvas.rect(0, 0, 1, 1, &RED);
    canvas.draw(1, 0, &SolidRect { w: 1, h: 1, c: &BLUE });
    assert_eq!(
        canvas.finish(),
        vec![RED, RED, BLUE, BLUE, RED, RED, BLUE, BLUE]
    );
}

#[test]
fn a_rect_of_pixels_equals_the_solid_block() {
    for &(surface, cells) in &[((10usize, 7usize), (4usize, 3usize)), ((8, 8), (4, 4)), ((3, 2), (5, 4))] {
        for w in 0..4usize {
            for h in 0..3usize {
                let mut a = blank(surface, cells);
                a.rect(1, 0, w, h, &Pixel(7u32));
                let mut b = blank(surface, cells);
                b.draw(1, 0, &SolidRect { w, h, c: &Pixel(7u32) });
                assert_eq!(a.buf(), b.buf());
            }
        }
    }
}
