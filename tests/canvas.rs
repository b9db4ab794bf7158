use ellipsoid_ray_casting::{Canvas, Color, PixelPoint, BACKGROUND};

#[test]
fn new_canvas_is_background() {
    let canvas = Canvas::new(3, 2);
    assert_eq!(3, canvas.get_width());
    assert_eq!(2, canvas.get_height());
    assert_eq!(vec![BACKGROUND; 24], canvas.frame().to_vec());
}

#[test]
fn set_pixel_writes_rgb_and_keeps_alpha() {
    let mut canvas = Canvas::new(3, 2);
    canvas.set_pixel(Color::from_rgb(1, 2, 3), 1, 2);
    let frame = canvas.frame();
    let at = (1 * 3 + 2) * 4;
    assert_eq!(&[1, 2, 3, 255], &frame[at..at + 4]);
    assert_eq!(21, frame.iter().filter(|b| **b == 255).count());
}

#[test]
fn draw_rectangle_is_inclusive_and_clamped() {
    let mut canvas = Canvas::new(4, 3);
    canvas.draw_rectangle(
        PixelPoint { x: 2, y: 1 },
        PixelPoint { x: 100, y: 100 },
        Color::from_rgb(0, 0, 0),
    );
    let frame = canvas.frame();
    for y in 0..3usize {
        for x in 0..4usize {
            let i = (y * 4 + x) * 4;
            let inside = x >= 2 && y >= 1;
            let expected = if inside { 0 } else { 255 };
            assert_eq!([expected, expected, expected, 255], frame[i..i + 4]);
        }
    }
}

#[test]
fn draw_rectangle_on_empty_canvas_does_nothing() {
    let mut canvas = Canvas::new(0, 5);
    canvas.draw_rectangle(PixelPoint { x: 0, y: 0 }, PixelPoint { x: 3, y: 3 }, Color::from_rgb(9, 9, 9));
    assert!(canvas.frame().is_empty());
}

#[test]
fn resize_keeps_old_bytes_and_fills_new_area() {
    let mut canvas = Canvas::new(1, 1);
    canvas.set_pixel(Color::from_rgb(7, 8, 9), 0, 0);
    canvas.resize(2, 1);
    assert_eq!(vec![7, 8, 9, 255, 255, 255, 255, 255], canvas.frame().to_vec());
    canvas.resize(1, 1);
    assert_eq!(vec![7, 8, 9, 255], canvas.frame().to_vec());
}
