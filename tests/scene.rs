use std::cell::Cell;

use ellipsoid_ray_casting::{Color, InvalidBlockSize, Scene, WorldPoint, DEFAULT_MAX_BLOCK_SIZE};

#[test]
fn modula_test() {
    assert_eq!(false, 0 % 3 == 1);
    assert_eq!(true, 1 % 3 == 1);
    assert_eq!(false, 2 % 3 == 1);
    assert_eq!(false, 3 % 3 == 1);
    assert_eq!(true, 4 % 3 == 1);
    assert_eq!(false, 5 % 3 == 1);
    assert_eq!(false, 6 % 3 == 1)
}

/// A shading that depends on the sample point alone.
fn shade(p: WorldPoint) -> Color {
    let x = p.x.num * 1_000_000 / p.x.den as i128;
    let y = p.y.num * 1_000_000 / p.y.den as i128;
    Color::from_rgb(
        (x.rem_euclid(251)) as u8,
        (y.rem_euclid(241)) as u8,
        ((x * 3 + y * 7).rem_euclid(239)) as u8,
    )
}

#[test]
fn block_size_shrinks_by_three_down_to_one() {
    let mut scene = Scene::new(20, 20);
    assert_eq!(DEFAULT_MAX_BLOCK_SIZE, scene.block_size());
    let mut sizes = Vec::new();
    for _ in 0..6 {
        scene.update(shade);
        sizes.push(scene.block_size());
    }
    assert_eq!(vec![27, 9, 3, 1, 1, 1], sizes);
}

#[test]
fn refinement_converges_to_full_resolution_pass() {
    for (w, h) in [(10, 7), (9, 9), (1, 1), (28, 5)] {
        let mut refined = Scene::new(w, h);
        refined.set_max_block_size(9).unwrap();
        refined.update(shade);
        refined.update(shade);
        refined.update(shade);
        assert_eq!(1, refined.block_size());

        let mut full = Scene::new(w, h);
        full.set_max_block_size(1).unwrap();
        full.update(shade);

        assert_eq!(full.canvas.frame(), refined.canvas.frame());
    }
}

#[test]
fn rerunning_a_pass_at_block_size_one_changes_nothing() {
    let mut scene = Scene::new(12, 8);
    scene.set_max_block_size(3).unwrap();
    scene.update(shade);
    scene.update(shade);
    let before = scene.canvas.frame().to_vec();
    scene.update(shade);
    assert_eq!(before, scene.canvas.frame().to_vec());
    assert_eq!(1, scene.block_size());
}

#[test]
fn first_pass_paints_whole_blocks_with_one_sample_each() {
    let calls = Cell::new(0u32);
    let mut scene = Scene::new(9, 9);
    scene.set_max_block_size(3).unwrap();
    scene.update(|p: WorldPoint| {
        calls.set(calls.get() + 1);
        shade(p)
    });
    assert_eq!(9, calls.get());
    calls.set(0);
    scene.update(|p: WorldPoint| {
        calls.set(calls.get() + 1);
        shade(p)
    });
    // the middle block of each 3 × 3 group keeps its color
    assert_eq!(72, calls.get());
}

#[test]
fn block_is_sampled_at_its_center() {
    let mut scene = Scene::new(6, 3);
    scene.set_max_block_size(3).unwrap();
    let seen = std::cell::RefCell::new(Vec::new());
    scene.update(|p: WorldPoint| {
        seen.borrow_mut().push(p);
        Color::from_rgb(1, 2, 3)
    });
    let seen = seen.into_inner();
    assert_eq!(2, seen.len());
    // the viewport is 5 units wide: block centers at x = -1.25 and 1.25, y = 0
    assert_eq!(5 * (3 - 6), seen[0].x.num);
    assert_eq!(12, seen[0].x.den);
    assert_eq!(5 * (9 - 6), seen[1].x.num);
    assert_eq!(0, seen[0].y.num);
    assert!(scene
        .canvas
        .frame()
        .chunks(4)
        .all(|px| px == [1, 2, 3, 255]));
}

#[test]
fn any_change_resets_block_size_to_maximum() {
    let mut scene = Scene::new(10, 10);
    scene.update(shade);
    scene.update(shade);
    assert_eq!(9, scene.block_size());
    scene.reset_blocks_size();
    assert_eq!(81, scene.block_size());

    scene.update(shade);
    scene.resize(12, 4);
    assert_eq!(81, scene.block_size());
    assert_eq!(12, scene.canvas.get_width());
    assert_eq!(4, scene.canvas.get_height());
    assert_eq!(12 * 4 * 4, scene.canvas.frame().len());

    scene.update(shade);
    assert_eq!(Ok(()), scene.set_max_block_size(9));
    assert_eq!(9, scene.max_block_size());
    assert_eq!(9, scene.block_size());
}

#[test]
fn block_size_that_is_not_a_power_of_three_is_refused() {
    let mut scene = Scene::new(4, 4);
    scene.update(shade);
    assert_eq!(Err(InvalidBlockSize { size: 10 }), scene.set_max_block_size(10));
    assert_eq!(Err(InvalidBlockSize { size: 0 }), scene.set_max_block_size(0));
    assert_eq!(81, scene.max_block_size());
    assert_eq!(27, scene.block_size());
}

#[test]
fn empty_frame_pass_does_nothing() {
    let mut scene = Scene::new(0, 0);
    scene.update(|_p: WorldPoint| -> Color { panic!("no block to sample") });
    assert_eq!(27, scene.block_size());
}
