use raytracer::canvas::Canvas;

type Rgb = (f64, f64, f64);

#[test]
fn creating_a_canvas() {
    let c: Canvas<Rgb> = Canvas::new(10, 20, (0.0, 0.0, 0.0));
    assert_eq!(c.width, 10);
    assert_eq!(c.height, 20);
    assert_eq!(c.pixels.len(), 200);
    for pixel in c.pixels {
        assert_eq!(pixel, (0.0, 0.0, 0.0));
    }
}

#[test]
fn writing_pixels_to_a_canvas() {
    let mut c: Canvas<Rgb> = Canvas::new(10, 20, (0.0, 0.0, 0.0));
    let red = (1.0, 0.0, 0.0);
    c.write_pixel(2, 3, red);
    assert_eq!(c.pixel_at(2, 3), red);
}

#[test]
fn pixels_are_stored_row_after_row() {
    let mut c: Canvas<u8> = Canvas::new(5, 3, 0);
    c.write_pixel(4, 1, 7);
    assert_eq!(c.pixels[1 * 5 + 4], 7);
    assert_eq!(c.pixel_at(1, 4 % 3), 0);
    assert_eq!(c.pixels.iter().filter(|p| **p != 0).count(), 1);
}

#[test]
fn an_empty_canvas_has_no_pixels() {
    let c: Canvas<u8> = Canvas::new(0, 7, 1);
    assert_eq!(c.pixels.len(), 0);
}
