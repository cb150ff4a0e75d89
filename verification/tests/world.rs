use raytracer_core::{PixelColor, PixelPosition, PixelRenderer, World};

const BLACK: PixelColor = PixelColor { r: 0, g: 0, b: 0 };

fn shade(n: u8) -> PixelColor {
    PixelColor { r: n, g: n + 1, b: n + 2 }
}

#[test]
fn new_world_is_black() {
    let world = World::new(2, 3);
    assert_eq!(world.width(), 3);
    assert_eq!(world.height(), 2);
    for y in 0..2 {
        for x in 0..3 {
            assert!(world.pixel(x, y) == BLACK);
        }
    }
}

#[test]
fn set_pixel_changes_one_cell() {
    let mut world = World::new(2, 3);
    world.set_pixel(2, 1, shade(10));
    for y in 0..2 {
        for x in 0..3 {
            if (x, y) == (2, 1) {
                assert!(world.pixel(x, y) == shade(10));
            } else {
                assert!(world.pixel(x, y) == BLACK);
            }
        }
    }
    world.set_pixel(2, 1, shade(20));
    assert!(world.pixel(2, 1) == shade(20));
}

#[test]
fn update_changes_nothing() {
    let mut world = World::new(2, 2);
    world.set_pixel(1, 0, shade(7));
    world.update();
    assert!(world.pixel(1, 0) == shade(7));
    assert!(world.pixel(0, 0) == BLACK);
    assert_eq!(world.width(), 2);
    assert_eq!(world.height(), 2);
}

#[test]
fn draw_flips_rows_and_writes_opaque_rgba() {
    let mut world = World::new(2, 3);
    let mut n = 0u8;
    for y in 0..2 {
        for x in 0..3 {
            world.set_pixel(x, y, shade(n));
            n += 10;
        }
    }
    let mut frame = vec![9u8; 24];
    world.draw(&mut frame);
    let expected: Vec<u8> = vec![
        30, 31, 32, 255, 40, 41, 42, 255, 50, 51, 52, 255, // stored row 1 comes first
        0, 1, 2, 255, 10, 11, 12, 255, 20, 21, 22, 255, // stored row 0 comes last
    ];
    assert_eq!(frame, expected);
}

#[test]
fn draw_keeps_the_bytes_after_the_last_group() {
    let mut world = World::new(1, 2);
    world.set_pixel(0, 0, shade(100));
    world.set_pixel(1, 0, shade(200));
    let mut frame = vec![7u8; 11];
    world.draw(&mut frame);
    assert_eq!(frame, vec![100, 101, 102, 255, 200, 201, 202, 255, 7, 7, 7]);
}

#[test]
fn draw_into_a_short_frame_fills_what_fits() {
    let mut world = World::new(2, 2);
    world.set_pixel(0, 1, shade(1));
    world.set_pixel(1, 1, shade(2));
    let mut frame = vec![0u8; 4];
    world.draw(&mut frame);
    assert_eq!(frame, vec![1, 2, 3, 255]);
    let mut none: Vec<u8> = Vec::new();
    world.draw(&mut none);
    assert!(none.is_empty());
}

#[test]
fn invalidate_turns_the_world_black() {
    let mut world = World::new(3, 3);
    world.set_pixel(1, 1, shade(50));
    world.set_pixel(2, 0, shade(60));
    world.invalidate_pixels();
    assert_eq!(world.width(), 3);
    assert_eq!(world.height(), 3);
    for y in 0..3 {
        for x in 0..3 {
            assert!(world.pixel(x, y) == BLACK);
        }
    }
}

#[test]
fn empty_world_draws_nothing() {
    let world = World::new(0, 0);
    let mut frame = vec![5u8; 3];
    world.draw(&mut frame);
    assert_eq!(frame, vec![5, 5, 5]);
}

#[test]
fn world_takes_pixels_as_a_sink() {
    let mut world = World::new(2, 3);
    PixelRenderer::set_pixel(&mut world, PixelPosition { x: 2, y: 1 }, shade(40));
    PixelRenderer::set_pixel(&mut world, PixelPosition { x: 0, y: 0 }, shade(50));
    assert!(world.pixel(2, 1) == shade(40));
    assert!(world.pixel(0, 0) == shade(50));
    assert!(world.pixel(1, 0) == BLACK);
    PixelRenderer::invalidate_pixels(&mut world);
    assert!(world.pixel(2, 1) == BLACK);
    assert!(world.pixel(0, 0) == BLACK);
}

#[test]
fn sink_lets_positions_outside_the_picture_pass() {
    let mut world = World::new(2, 3);
    PixelRenderer::set_pixel(&mut world, PixelPosition { x: 3, y: 0 }, shade(40));
    PixelRenderer::set_pixel(&mut world, PixelPosition { x: 0, y: 2 }, shade(40));
    PixelRenderer::set_pixel(&mut world, PixelPosition { x: usize::MAX, y: usize::MAX }, shade(40));
    for y in 0..2 {
        for x in 0..3 {
            assert!(world.pixel(x, y) == BLACK);
        }
    }
}
