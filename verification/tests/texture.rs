use framebrush::{AddressingMode, Canvas, Color, Sampler};

fn blank(surface: (usize, usize), canvas: (usize, usize)) -> Canvas<u32> {
    Canvas::new(vec![0u32; surface.0 * surface.1], surface, canvas).ok().unwrap()
}

#[test]
fn checkerboard_texture_is_sampled_nearest() {
    let mut canvas = blank((4, 4), (4, 4));
    canvas.fill(9);
    let source = [1u32, 2, 3, 4];
    canvas.texture(&source, 0, 0, (2, 2), (4, 4));
    assert_eq!(
        canvas.finish(),
        vec![1, 1, 2, 2, 1, 1, 2, 2, 3, 3, 4, 4, 3, 3, 4, 4]
    );
}

#[test]
fn texture_of_its_own_size_is_copied() {
    let mut canvas = blank((3, 2), (3, 2));
    let source = [1u32, 2, 3, 4, 5, 6];
    canvas.texture(&source, 0, 0, (3, 2), (3, 2));
    assert_eq!(canvas.finish(), vec![1, 2, 3, 4, 5, 6]);
}

#[test]
fn texture_is_scaled_with_the_canvas() {
    let mut canvas = blank((8, 4), (4, 2));
    let source = [1u32, 2];
    canvas.texture(&source, 1, 1, (2, 1), (2, 1));
    assert_eq!(
        canvas.finish(),
        vec![
            0, 0, 0, 0, 0, 0, 0, 0, //
            0, 0, 0, 0, 0, 0, 0, 0, //
            0, 0, 1, 1, 2, 2, 0, 0, //
            0, 0, 1, 1, 2, 2, 0, 0,
        ]
    );
}

#[test]
fn texture_is_shrunk_by_truncation() {
    let mut canvas = blank((2, 1), (2, 1));
    let source = [1u32, 2, 3, 4, 5];
    canvas.texture(&source, 0, 0, (5, 1), (2, 1));
    assert_eq!(canvas.finish(), vec![1, 3]);
}

#[test]
fn texture_past_the_far_edge_is_clipped() {
    let mut canvas = blank((4, 1), (4, 1));
    let source = [1u32, 2, 3, 4];
    canvas.texture(&source, 2, 0, (4, 1), (4, 1));
    assert_eq!(canvas.buf().to_vec(), vec![0, 0, 1, 2]);
    canvas.texture(&source, 4, 0, (4, 1), (4, 1));
    canvas.texture(&source, 0, 1, (4, 1), (4, 1));
    assert_eq!(canvas.finish(), vec![0, 0, 1, 2]);
}

#[test]
fn texture_without_cells_changes_nothing() {
    let mut canvas = blank((4, 1), (4, 1));
    let source = [1u32, 2, 3, 4];
    canvas.texture(&source, 0, 0, (4, 1), (0, 1));
    canvas.texture(&source, 0, 0, (4, 1), (4, 0));
    assert_eq!(canvas.finish(), vec![0, 0, 0, 0]);
}

#[test]
fn texture_origin_is_wrapped_in_wrap_mode() {
    let mut canvas =
        Canvas::with_mode(vec![0u32; 4], (4, 1), (4, 1), AddressingMode::Wrap).ok().unwrap();
    let source = [1u32, 2];
    canvas.texture(&source, -2, 0, (2, 1), (2, 1));
    assert_eq!(canvas.finish(), vec![0, 0, 1, 2]);
}

#[test]
fn texture_pixels_the_source_lacks_are_left_alone() {
    let mut canvas = blank((2, 2), (2, 2));
    canvas.fill(9);
    let source = [1u32, 2, 3];
    canvas.texture(&source, 0, 0, (2, 2), (2, 2));
    assert_eq!(canvas.buf().to_vec(), vec![1, 2, 3, 9]);
    canvas.texture(&[], 0, 0, (2, 2), (2, 2));
    assert_eq!(canvas.finish(), vec![1, 2, 3, 9]);
}

#[test]
fn texture_of_the_largest_block() {
    let mut canvas = blank((2, 2), (1, 1));
    let source = [1u32, 2, 3, 4];
    canvas.texture(&source, 0, 0, (2, 2), (u32::MAX, u32::MAX));
    assert_eq!(canvas.finish(), vec![1, 1, 1, 1]);
}

#[test]
fn sampler_gives_the_nearest_source_pixel() {
    let source = [1u32, 2, 3, 4];
    let sampler = Sampler {
        source: &source,
        source_size: (2, 2),
        width: 6,
        origin: (1, 1),
        size: (4, 2),
    };
    assert_eq!(sampler.pixel(0, 6 + 1), 1);
    assert_eq!(sampler.pixel(0, 6 + 2), 1);
    assert_eq!(sampler.pixel(0, 6 + 3), 2);
    assert_eq!(sampler.pixel(0, 6 + 4), 2);
    assert_eq!(sampler.pixel(0, 12 + 1), 3);
    assert_eq!(sampler.pixel(0, 12 + 4), 4);
}

#[test]
fn sampler_keeps_pixels_outside_its_rectangle() {
    let source = [1u32, 2, 3, 4];
    let sampler = Sampler {
        source: &source,
        source_size: (2, 2),
        width: 6,
        origin: (1, 1),
        size: (4, 2),
    };
    assert_eq!(sampler.pixel(7, 0), 7);
    assert_eq!(sampler.pixel(7, 6), 7);
    assert_eq!(sampler.pixel(7, 6 + 5), 7);
    assert_eq!(sampler.pixel(7, 18 + 1), 7);
    let flat = Sampler { source: &source, source_size: (2, 2), width: 0, origin: (0, 0), size: (4, 2) };
    assert_eq!(flat.pixel(7, 3), 7);
}
