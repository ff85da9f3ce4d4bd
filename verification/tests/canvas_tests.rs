use ray_canvas::canvas::Canvas;
use ray_canvas::color::Color;

fn color(r: f64, g: f64, b: f64) -> Color {
    Color::new(r.to_bits(), g.to_bits(), b.to_bits())
}

#[test]
fn creating_a_canvas() {
    let c = Canvas::new(10, 20);

    assert_eq!(c.width(), 10);
    assert_eq!(c.height(), 20);
    for y in 0..20 {
        for x in 0..10 {
            assert_eq!(c.pixel_at(x, y), Color::black());
        }
    }
}

#[test]
fn writing_pixels_to_a_canvas() {
    let mut c = Canvas::new(10, 20);
    let red = color(1.0, 0.0, 0.0);
    c.write_pixel(2, 3, red);

    assert_eq!(c.pixel_at(2, 3), Color::red());
}

#[test]
fn constructing_the_ppm_header() {
    let c = Canvas::new(5, 3);
    let ppm = c.to_ppm();

    let lines: Vec<&str> = ppm.lines().collect();
    assert_eq!(lines[0], "P3");
    assert_eq!(lines[1], "5 3");
    assert_eq!(lines[2], "255");
}

#[test]
fn constructing_the_ppm_pixel_data() {
    let mut c = Canvas::new(5, 3);
    let c1 = color(1.5, 0.0, 0.0);
    let c2 = color(0.0, 0.5, 0.0);
    let c3 = color(-0.5, 0.0, 1.0);
    c.write_pixel(0, 0, c1);
    c.write_pixel(2, 1, c2);
    c.write_pixel(4, 2, c3);

    let ppm = c.to_ppm();

    let lines: Vec<&str> = ppm.lines().collect();
    assert_eq!(lines[3], "255 0 0 0 0 0 0 0 0 0 0 0 0 0 0");
    assert_eq!(lines[4], "0 0 0 0 0 0 0 128 0 0 0 0 0 0 0");
    assert_eq!(lines[5], "0 0 0 0 0 0 0 0 0 0 0 0 0 0 255");
}

#[test]
fn splitting_long_lines_in_ppm_files() {
    let mut c = Canvas::new(10, 2);
    let color = color(1.0, 0.8, 0.6);
    for y in 0..2 {
        for x in 0..10 {
            c.write_pixel(x, y, color);
        }
    }

    let ppm = c.to_ppm();

    let lines: Vec<&str> = ppm.lines().collect();
    assert_eq!(
        lines[3],
        "255 204 153 255 204 153 255 204 153 255 204 153 255 204 153 255 204 153 255 204 153 255 204 153 255 204 153 255 204 153"
    );
    assert_eq!(
        lines[4],
        "255 204 153 255 204 153 255 204 153 255 204 153 255 204 153 255 204 153 255 204 153 255 204 153 255 204 153 255 204 153"
    );
}

#[test]
fn ppm_files_are_terminated_by_a_newline_character() {
    let c = Canvas::new(5, 3);
    let ppm = c.to_ppm();

    assert_eq!(ppm.chars().last(), Some('\n'));
}

#[test]
fn rows_wider_than_the_wrap_threshold_are_wrapped() {
    let mut c = Canvas::new(52, 1);
    for x in 0..52 {
        c.write_pixel(x, 0, Color::white());
    }

    let ppm = c.to_ppm();

    let lines: Vec<&str> = ppm.lines().collect();
    assert_eq!(lines[3], ["255 255 255"; 50].join(" "));
    assert_eq!(lines[4], ["255 255 255"; 2].join(" "));
    // The document ends with an extra newline, so one empty line follows.
    assert_eq!(lines.len(), 6);
    assert_eq!(lines[5], "");
}

#[test]
fn very_wide_rows_are_wrapped_at_every_threshold() {
    let mut c = Canvas::new(101, 1);
    for x in 0..101 {
        c.write_pixel(x, 0, Color::white());
    }

    let ppm = c.to_ppm();

    let lines: Vec<&str> = ppm.lines().collect();
    assert_eq!(lines[3], ["255 255 255"; 50].join(" "));
    assert_eq!(lines[4], ["255 255 255"; 50].join(" "));
    assert_eq!(lines[5], "255 255 255");
    assert_eq!(lines.len(), 7);
    assert_eq!(lines[6], "");
}

#[test]
fn serializing_an_empty_canvas() {
    let c = Canvas::new(0, 0);
    assert_eq!(c.to_ppm(), "P3\n0 0\n255\n\n");
}

#[test]
fn serializing_a_canvas_with_zero_width_rows() {
    let c = Canvas::new(0, 2);
    assert_eq!(c.to_ppm(), "P3\n0 2\n255\n\n\n\n");
}

#[test]
fn serializing_a_canvas_with_zero_height() {
    let c = Canvas::new(7, 0);
    assert_eq!(c.to_ppm(), "P3\n7 0\n255\n\n");
}

#[test]
fn header_prints_multi_digit_dimensions() {
    let c = Canvas::new(120, 305);
    let ppm = c.to_ppm();
    let lines: Vec<&str> = ppm.lines().collect();
    assert_eq!(lines[1], "120 305");
}

#[test]
fn writing_a_pixel_leaves_every_other_pixel_black() {
    let mut c = Canvas::new(10, 20);
    c.write_pixel(2, 3, Color::red());

    for y in 0..20 {
        for x in 0..10 {
            if (x, y) == (2, 3) {
                assert_eq!(c.pixel_at(x, y), Color::red());
            } else {
                assert_eq!(c.pixel_at(x, y), Color::black());
            }
        }
    }
}
