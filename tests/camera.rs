use ellipsoid_ray_casting::{Camera, Ratio, WorldPoint, CAMERA_CENTER_Z};

fn value(r: Ratio) -> f32 {
    r.num as f32 / r.den as f32
}

fn point(p: WorldPoint) -> [f32; 3] {
    [value(p.x), value(p.y), p.z as f32]
}

fn at(x: f32, y: f32) -> Option<[f32; 3]> {
    Some([x, y, CAMERA_CENTER_Z as f32])
}

#[test]
fn upper_left_corner_square_viewport() {
    let camera = Camera::new(3, 3);

    assert_eq!([-1.5, 1.5, CAMERA_CENTER_Z as f32], point(camera.upper_left_corner()));
}

#[test]
fn upper_left_corner_not_square_viewport() {
    let camera = Camera::new(4, 3);

    assert_eq!([-2.0, 1.5, CAMERA_CENTER_Z as f32], point(camera.upper_left_corner()));
}

#[test]
fn single_pixel_squared() {
    let camera = Camera::new(3, 3);

    let mut iter = camera.get_points_iterator(1, 1);

    assert_eq!(at(0.0, 0.0), iter.next().map(point));
    assert_eq!(None, iter.next().map(point));
}

#[test]
fn single_pixel_not_squared() {
    let camera = Camera::new(5, 3);

    let mut iter = camera.get_points_iterator(1, 1);

    assert_eq!(at(0.0, 0.0), iter.next().map(point));
    assert_eq!(None, iter.next().map(point));
}

#[test]
fn simple_iteration_3x3() {
    let camera = Camera::new(3, 3);

    let mut iter = camera.get_points_iterator(3, 3);

    // First row
    assert_eq!(at(-1.0, 1.0), iter.next().map(point));
    assert_eq!(at(0.0, 1.0), iter.next().map(point));
    assert_eq!(at(1.0, 1.0), iter.next().map(point));

    // Second row
    assert_eq!(at(-1.0, 0.0), iter.next().map(point));
    assert_eq!(at(0.0, 0.0), iter.next().map(point));
    assert_eq!(at(1.0, 0.0), iter.next().map(point));

    // Third row
    assert_eq!(at(-1.0, -1.0), iter.next().map(point));
    assert_eq!(at(0.0, -1.0), iter.next().map(point));
    assert_eq!(at(1.0, -1.0), iter.next().map(point));

    assert_eq!(None, iter.next().map(point));
}

#[test]
fn simple_iteration_5x3() {
    let camera = Camera::new(5, 3);

    let mut iter = camera.get_points_iterator(5, 3);

    // First row
    assert_eq!(at(-2.0, 1.0), iter.next().map(point));
    assert_eq!(at(-1.0, 1.0), iter.next().map(point));
    assert_eq!(at(0.0, 1.0), iter.next().map(point));
    assert_eq!(at(1.0, 1.0), iter.next().map(point));
    assert_eq!(at(2.0, 1.0), iter.next().map(point));

    // Second row
    assert_eq!(at(-2.0, 0.0), iter.next().map(point));
    assert_eq!(at(-1.0, 0.0), iter.next().map(point));
    assert_eq!(at(0.0, 0.0), iter.next().map(point));
    assert_eq!(at(1.0, 0.0), iter.next().map(point));
    assert_eq!(at(2.0, 0.0), iter.next().map(point));

    // Third row
    assert_eq!(at(-2.0, -1.0), iter.next().map(point));
    assert_eq!(at(-1.0, -1.0), iter.next().map(point));
    assert_eq!(at(0.0, -1.0), iter.next().map(point));
    assert_eq!(at(1.0, -1.0), iter.next().map(point));
    assert_eq!(at(2.0, -1.0), iter.next().map(point));

    assert_eq!(None, iter.next().map(point));
}

#[test]
fn single_pixel_is_viewport_center_for_any_viewport() {
    for (vw, vh) in [(1, 1), (7, 2), (100, 3), (u32::MAX, u32::MAX)] {
        let mut iter = Camera::new(vw, vh).get_points_iterator(1, 1);
        let p = iter.next().unwrap();
        assert_eq!(0, p.x.num);
        assert_eq!(0, p.y.num);
        assert!(iter.next().is_none());
    }
}

#[test]
fn iterator_yields_width_times_height_points_then_stays_exhausted() {
    let camera = Camera::new(4, 4);
    let mut iter = camera.get_points_iterator(4, 2);
    let mut seen = Vec::new();
    while let Some(p) = iter.next() {
        seen.push(point(p));
    }
    assert_eq!(8, seen.len());
    // one pixel is 1 unit wide and 2 units high
    assert_eq!([-1.5, 1.0, -20.0], seen[0]);
    assert_eq!([1.5, 1.0, -20.0], seen[3]);
    assert_eq!([-1.5, -1.0, -20.0], seen[4]);
    assert!(iter.next().is_none());
    assert!(iter.next().is_none());
}

#[test]
fn empty_image_has_no_points() {
    let camera = Camera::new(3, 3);
    assert!(camera.get_points_iterator(0, 3).next().is_none());
    assert!(camera.get_points_iterator(3, 0).next().is_none());
}

#[test]
fn point_at_half_pixel_coordinates_is_exact() {
    let camera = Camera::new(5, 5);
    let p = camera.point_at(10, 4, 3, 1);
    assert_eq!(Ratio { num: 5 * (3 - 10), den: 20 }, p.x);
    assert_eq!(Ratio { num: 5 * (4 - 1), den: 8 }, p.y);
    assert_eq!(-20, p.z);
}
