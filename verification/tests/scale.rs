use framebrush::{extent, locate, modv2, resolve, round, scale, span, AddressingMode};

#[test]
fn modv2_is_never_negative() {
    assert_eq!(modv2(7, 4), 3);
    assert_eq!(modv2(-1, 4), 3);
    assert_eq!(modv2(-4, 4), 0);
    assert_eq!(modv2(-5, 4), 3);
    assert_eq!(modv2(0, 4), 0);
    assert_eq!(modv2(4, 4), 0);
}

#[test]
fn modv2_takes_a_negative_modulus() {
    assert_eq!(modv2(5, -3), 2);
    assert_eq!(modv2(-5, -3), 1);
    assert_eq!(modv2(-6, -3), 0);
}

#[test]
fn modv2_at_the_limits() {
    assert_eq!(modv2(i32::MIN, i32::MAX), i32::MAX - 1);
    assert_eq!(modv2(i32::MAX, i32::MAX), 0);
    assert_eq!(modv2(i32::MIN, i32::MIN), 0);
    assert_eq!(modv2(-1, i32::MIN), i32::MAX);
    assert_eq!(modv2(i32::MIN, 1), 0);
    assert_eq!(modv2(i32::MIN, -1), 0);
}

#[test]
fn round_sends_halves_up() {
    assert_eq!(round(0, 4), 0);
    assert_eq!(round(1, 4), 0);
    assert_eq!(round(2, 4), 1);
    assert_eq!(round(3, 4), 1);
    assert_eq!(round(4, 4), 1);
    assert_eq!(round(5, 4), 1);
    assert_eq!(round(6, 4), 2);
    assert_eq!(round(7, 3), 2);
    assert_eq!(round(8, 3), 3);
    assert_eq!(round(5, 1), 5);
}

#[test]
fn scale_places_edges_of_a_fractional_ratio() {
    let edges: Vec<u128> = (0..6).map(|k| scale(k, 10, 4)).collect();
    assert_eq!(edges, vec![0, 3, 5, 8, 10, 13]);
    let edges: Vec<u128> = (0..6).map(|k| scale(k, 3, 4)).collect();
    assert_eq!(edges, vec![0, 1, 2, 2, 3, 4]);
}

#[test]
fn scale_of_an_integral_ratio_multiplies() {
    for k in 0..10u64 {
        assert_eq!(scale(k, 8, 4), 2 * k as u128);
    }
}

#[test]
fn scale_of_the_largest_arguments() {
    assert_eq!(scale(u64::MAX, usize::MAX, 1), u64::MAX as u128 * usize::MAX as u128);
    assert_eq!(scale(u64::MAX, usize::MAX, usize::MAX), u64::MAX as u128);
}

#[test]
fn resolve_clamps_below_zero_only() {
    assert_eq!(resolve(AddressingMode::Clamp, -3, 4), 0);
    assert_eq!(resolve(AddressingMode::Clamp, 0, 4), 0);
    assert_eq!(resolve(AddressingMode::Clamp, 3, 4), 3);
    assert_eq!(resolve(AddressingMode::Clamp, 9, 4), 9);
}

#[test]
fn resolve_wraps_both_ways() {
    assert_eq!(resolve(AddressingMode::Wrap, -1, 4), 3);
    assert_eq!(resolve(AddressingMode::Wrap, 4, 4), 0);
    assert_eq!(resolve(AddressingMode::Wrap, 9, 4), 1);
    assert_eq!(resolve(AddressingMode::Wrap, -8, 4), 0);
}

#[test]
fn resolve_wraps_on_a_canvas_wider_than_the_coordinates() {
    let canvas = i32::MAX as usize + 10;
    assert_eq!(resolve(AddressingMode::Wrap, 5, canvas), 5);
    assert_eq!(resolve(AddressingMode::Wrap, -1, canvas), canvas - 1);
    assert_eq!(resolve(AddressingMode::Wrap, i32::MIN, canvas), 9);
}

#[test]
fn span_is_clipped_to_the_surface() {
    assert_eq!(span(AddressingMode::Clamp, 1, 1, 8, 4), (2, 4));
    assert_eq!(span(AddressingMode::Clamp, 3, 5, 8, 4), (6, 8));
    assert_eq!(span(AddressingMode::Clamp, 4, 1, 8, 4), (8, 8));
    assert_eq!(span(AddressingMode::Clamp, 100, 1, 8, 4), (8, 8));
    assert_eq!(span(AddressingMode::Clamp, -2, 2, 8, 4), (0, 4));
    assert_eq!(span(AddressingMode::Clamp, 0, usize::MAX, 8, 4), (0, 8));
    assert_eq!(span(AddressingMode::Clamp, 2, 0, 8, 4), (4, 4));
}

#[test]
fn span_of_a_wrapped_cell() {
    assert_eq!(span(AddressingMode::Wrap, -1, 1, 8, 4), (6, 8));
    assert_eq!(span(AddressingMode::Wrap, 4, 1, 8, 4), (0, 2));
    assert_eq!(span(AddressingMode::Wrap, 3, 2, 8, 4), (6, 8));
}

#[test]
fn neighbouring_spans_share_an_edge() {
    for &(surface, canvas) in &[(10usize, 4usize), (3, 4), (7, 3), (8, 4), (1, 5)] {
        let mut end = 0;
        for k in 0..canvas as i32 {
            let (low, high) = span(AddressingMode::Clamp, k, 1, surface, canvas);
            assert_eq!(low, end);
            end = high;
        }
        assert_eq!(end, surface);
    }
}

#[test]
fn extent_is_not_clipped() {
    assert_eq!(extent(AddressingMode::Clamp, 3, 5, 8, 4), (6, 16));
    assert_eq!(extent(AddressingMode::Clamp, -1, 2, 10, 4), (0, 5));
    assert_eq!(extent(AddressingMode::Wrap, -1, 2, 10, 4), (8, 13));
    assert_eq!(extent(AddressingMode::Clamp, 1, 0, 10, 4), (3, 3));
}

#[test]
fn extent_past_the_largest_cell_number() {
    let canvas = usize::MAX;
    let (begin, end) = extent(AddressingMode::Wrap, -1, 3, usize::MAX, canvas);
    assert_eq!(begin, usize::MAX as u128 - 1);
    assert_eq!(end, usize::MAX as u128 + 2);
}

#[test]
fn locate_gives_the_leading_edge() {
    assert_eq!(locate(AddressingMode::Clamp, 1, 10, 4), 3);
    assert_eq!(locate(AddressingMode::Clamp, -7, 10, 4), 0);
    assert_eq!(locate(AddressingMode::Clamp, 6, 10, 4), 15);
    assert_eq!(locate(AddressingMode::Wrap, 6, 10, 4), 5);
    assert_eq!(locate(AddressingMode::Clamp, i32::MAX, usize::MAX, 1), usize::MAX);
}
