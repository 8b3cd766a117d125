use fractal_life::animation::Field;
use fractal_life::{
    clamp_u8, invalid_fractal, mandelbrot_set, newton_fractal, rescale, translate_coordinates,
    Color, FIXED_ONE,
};

const ONE: i64 = FIXED_ONE;

#[test]
fn origin_never_escapes() {
    assert_eq!(mandelbrot_set(0, 0), Color { r: 0, g: 100, b: 255 });
}

#[test]
fn far_point_escapes_at_iteration_zero() {
    assert_eq!(mandelbrot_set(3 * ONE, 0), Color { r: 100, g: 0, b: 0 });
    assert_eq!(mandelbrot_set(0, -3 * ONE), Color { r: 100, g: 0, b: 0 });
    assert_eq!(mandelbrot_set(i64::MAX, i64::MIN), Color { r: 100, g: 0, b: 0 });
}

#[test]
fn point_outside_the_set_escapes_early() {
    // c = 1: z runs 0, 1, 2, 5; |5| > 2 is seen at step 3, so iteration 2.
    assert_eq!(mandelbrot_set(ONE, 0), Color { r: 98, g: 2, b: 4 });
    // c = -1 cycles between 0 and -1 and never escapes.
    assert_eq!(mandelbrot_set(-ONE, 0), Color { r: 0, g: 100, b: 255 });
}

#[test]
fn newton_near_first_root_converges_at_once() {
    assert_eq!(newton_fractal(ONE + 100, 50), Color { r: 255, g: 255, b: 0 });
}

#[test]
fn newton_anywhere_within_tolerance_of_first_root_converges_at_once() {
    for dx in [-327i64, -200, -1, 0, 1, 200, 327] {
        for dy in [-327i64, -90, 0, 90, 327] {
            assert_eq!(
                newton_fractal(ONE + dx, dy),
                Color { r: 255, g: 255, b: 0 },
                "start ({}, {})",
                dx,
                dy
            );
        }
    }
}

#[test]
fn newton_near_second_and_third_roots() {
    assert_eq!(newton_fractal(-ONE / 2 + 40, 56756 - 30), Color { r: 0, g: 255, b: 255 });
    assert_eq!(newton_fractal(-ONE / 2 - 40, -56756 + 30), Color { r: 255, g: 127, b: 255 });
}

#[test]
fn newton_from_farther_takes_more_iterations() {
    // From z = 2 the iteration reaches the root 1 after a few steps: shade falls.
    let c = newton_fractal(2 * ONE, 0);
    assert_eq!(c.b, 0);
    assert_eq!(c.r, c.g);
    assert!(c.r < 255);
    assert!(c.r > 0);
}

#[test]
fn newton_at_origin_is_black() {
    assert_eq!(newton_fractal(0, 0), Color { r: 0, g: 0, b: 0 });
}

#[test]
fn invalid_field_is_black() {
    assert_eq!(invalid_fractal(5, -7), Color { r: 0, g: 0, b: 0 });
}

#[test]
fn clamp_caps_at_255() {
    assert_eq!(clamp_u8(0), 0);
    assert_eq!(clamp_u8(255), 255);
    assert_eq!(clamp_u8(256), 255);
    assert_eq!(clamp_u8(9801), 255);
}

#[test]
fn rescale_maps_pixels_to_plane() {
    assert_eq!(rescale((10, 20), (0, 0), ONE), (10 * ONE, 20 * ONE));
    assert_eq!(rescale((10, 20), (2 * ONE, 4 * ONE), 2 * ONE), (4 * ONE, 8 * ONE));
    assert_eq!(rescale((0, 1), (ONE, 0), 4 * ONE), (-ONE / 4, ONE / 4));
}

#[test]
fn rescale_keeps_far_points() {
    assert_eq!(rescale((2000, 0), (0, 0), ONE), (2000 * ONE, 0));
    assert_eq!(rescale((5000, 0), (0, 0), ONE), (5000 * ONE, 0));
    assert_eq!(rescale((0, 0), (5000 * ONE, 0), ONE), (-5000 * ONE, 0));
    assert_eq!(rescale((600, 0), (300 * ONE, 0), ONE / 2), (600 * ONE, 0));
}

#[test]
fn rescale_saturates_at_the_integer_range() {
    assert_eq!(rescale((usize::MAX, 0), (i64::MIN, 0), 1), (i64::MAX, 0));
    assert_eq!(rescale((0, 0), (i64::MAX, i64::MAX), 1), (i64::MIN, i64::MIN));
}

#[test]
fn translate_coordinates_is_row_major_rgba() {
    assert_eq!(translate_coordinates(0, 0, 10), 0);
    assert_eq!(translate_coordinates(2, 3, 10), 92);
}

#[test]
fn field_names_select_rules() {
    assert_eq!(Field::from_name("newton"), Field::Newton);
    assert_eq!(Field::from_name("mandelbrot"), Field::Mandelbrot);
    assert_eq!(Field::from_name("julia"), Field::Invalid);
    assert_eq!(Field::from_name(""), Field::Invalid);
    assert_eq!(Field::from_name("newtons"), Field::Invalid);
}

#[test]
fn field_colors_dispatch() {
    assert_eq!(Field::Mandelbrot.color(0, 0), mandelbrot_set(0, 0));
    assert_eq!(Field::Newton.color(ONE + 100, 50), newton_fractal(ONE + 100, 50));
    assert_eq!(Field::Invalid.color(ONE, ONE), Color { r: 0, g: 0, b: 0 });
}

#[test]
fn point_escaping_late_records_its_step() {
    // c = 1/4 + small: the orbit creeps past |z| = 2 after many steps.
    let late = mandelbrot_set(ONE / 4 + 200, 0);
    assert!(late.g > 10);
    assert!(late.g < 100);
    assert_eq!(late.r, 100 - late.g);
}

#[test]
fn newton_from_near_the_origin_still_finds_a_root() {
    // The first step throws the point about 1480 units out; the iteration
    // keeps going and comes back to the root 1.
    let c = newton_fractal(983, 0);
    assert_eq!(c.b, 0);
    assert_eq!(c.r, c.g);
    assert!(c.r > 0);
}

#[test]
fn newton_from_far_away_comes_back() {
    let c = newton_fractal(3000 * ONE, 0);
    assert_eq!(c.b, 0);
    assert_eq!(c.r, c.g);
    let d = newton_fractal(i64::MAX, 0);
    assert_eq!(d.b, 0);
    assert_eq!(d.r, d.g);
}

fn swap_conjugate_roots(c: Color) -> Color {
    if c.r == 0 && c.g == c.b {
        Color { r: c.g, g: c.g / 2, b: c.g }
    } else if c.r == c.b && c.g == c.r / 2 && c.r != 0 {
        Color { r: 0, g: c.r, b: c.r }
    } else {
        c
    }
}

#[test]
fn newton_is_symmetric_across_the_real_axis() {
    assert_eq!(newton_fractal(61733, -2551), newton_fractal(61733, 2551));
    for (x, y) in [(61733i64, 2551i64), (-ONE / 2 + 40, 56756 - 30), (983, 777), (-3 * ONE, ONE), (5, 7), (2 * ONE, 3 * ONE)] {
        assert_eq!(newton_fractal(x, -y), swap_conjugate_roots(newton_fractal(x, y)), "start ({}, {})", x, y);
    }
}
