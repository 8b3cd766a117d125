use fractal_life::{mandelbrot_set, rescale, AnimationState, Field, FIXED_ONE};

const ONE: i64 = FIXED_ONE;

#[test]
fn buffer_length_is_four_bytes_per_pixel() {
    for size in [0usize, 1, 3, 8] {
        let mut s = AnimationState::new(size, "mandelbrot");
        assert_eq!(s.get_data().len(), size * size * 4);
    }
}

#[test]
fn second_read_does_not_recompute() {
    let mut s = AnimationState::new(6, "newton");
    assert_eq!(s.recompute_count(), 0);
    let first = s.get_data().to_vec();
    assert_eq!(s.recompute_count(), 1);
    let second = s.get_data().to_vec();
    assert_eq!(s.recompute_count(), 1);
    assert_eq!(first, second);
}

#[test]
fn set_shift_reads_back() {
    let mut s = AnimationState::new(4, "mandelbrot");
    s.set_shift(-3 * ONE, 7);
    assert_eq!(s.get_shift_x(), -3 * ONE);
    assert_eq!(s.get_shift_y(), 7);
    s.set_shift_x(11);
    s.set_shift_y(-12);
    assert_eq!((s.get_shift_x(), s.get_shift_y()), (11, -12));
}

#[test]
fn setting_current_values_does_not_dirty() {
    let mut s = AnimationState::new(4, "mandelbrot");
    s.get_data();
    assert_eq!(s.recompute_count(), 1);
    s.set_zoom(s.get_zoom());
    s.set_shift(0, 0);
    s.set_shift_x(0);
    s.set_shift_y(0);
    s.shift_by(0, 0);
    s.zoom_by(0);
    s.get_data();
    assert_eq!(s.recompute_count(), 1);
    s.set_zoom(2 * ONE);
    s.get_data();
    assert_eq!(s.recompute_count(), 2);
}

#[test]
fn non_positive_zoom_is_ignored() {
    let mut s = AnimationState::new(2, "mandelbrot");
    s.get_data();
    s.set_zoom(0);
    s.set_zoom(-ONE);
    s.zoom_by(-ONE);
    assert_eq!(s.get_zoom(), ONE);
    s.get_data();
    assert_eq!(s.recompute_count(), 1);
}

#[test]
fn relative_moves_add_up() {
    let mut s = AnimationState::new(2, "mandelbrot");
    s.shift_by(3, -4);
    s.shift_by(1, 1);
    s.zoom_by(ONE);
    assert_eq!((s.get_shift_x(), s.get_shift_y(), s.get_zoom()), (4, -3, 2 * ONE));
    s.shift_by(i64::MAX, 0);
    assert_eq!(s.get_shift_x(), i64::MAX);
}

#[test]
fn frame_is_opaque_and_matches_the_field() {
    let size = 5usize;
    let mut s = AnimationState::new(size, "mandelbrot");
    s.set_zoom(2 * ONE);
    s.set_shift(2 * ONE, 2 * ONE);
    let data = s.get_data().to_vec();
    for row in 0..size {
        for col in 0..size {
            let (x, y) = rescale((col, row), (2 * ONE, 2 * ONE), 2 * ONE);
            let c = mandelbrot_set(x, y);
            let at = (row * size + col) * 4;
            assert_eq!(&data[at..at + 4], &[c.r, c.g, c.b, 255]);
        }
    }
    // Pixel (2, 2) maps to the origin, which never escapes.
    let centre = (2 * size + 2) * 4;
    assert_eq!(&data[centre..centre + 4], &[0, 100, 255, 255]);
}

#[test]
fn unknown_field_paints_black() {
    let mut s = AnimationState::new(3, "sierpinski");
    let data = s.get_data().to_vec();
    for (i, b) in data.iter().enumerate() {
        assert_eq!(*b, if i % 4 == 3 { 255 } else { 0 });
    }
}

#[test]
fn odd_sizes_are_fully_painted() {
    let mut s = AnimationState::new(3, "newton");
    let data = s.get_data().to_vec();
    // Pixel (1, 1) is the plane point (1, 1) at zoom 1; whatever its color, it was computed.
    let (x, y) = rescale((1, 1), (0, 0), ONE);
    let c = fractal_life::newton_fractal(x, y);
    assert_eq!(&data[16..20], &[c.r, c.g, c.b, 255]);
}

#[test]
fn reselecting_the_field_dirties_only_on_change() {
    let mut s = AnimationState::new(3, "sierpinski");
    let black = s.get_data().to_vec();
    s.set_field(Field::Invalid);
    s.get_data();
    assert_eq!(s.recompute_count(), 1);
    s.set_field(Field::Mandelbrot);
    let painted = s.get_data().to_vec();
    assert_eq!(s.recompute_count(), 2);
    assert_ne!(black, painted);
    let (x, y) = rescale((0, 0), (0, 0), ONE);
    let c = mandelbrot_set(x, y);
    assert_eq!(&painted[0..4], &[c.r, c.g, c.b, 255]);
}
