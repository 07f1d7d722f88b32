use breakout_core::level::parse;
use breakout_core::tiles::{brick_for_code, color_for_code, level_bricks, level_is_completed, Brick, Color};

fn rgb(red: u32, green: u32, blue: u32) -> Color {
    Color { red, green, blue }
}

#[test]
fn fixed_colors() {
    assert_eq!(color_for_code(1), rgb(800, 800, 700));
    assert_eq!(color_for_code(2), rgb(200, 600, 1000));
    assert_eq!(color_for_code(3), rgb(0, 700, 0));
    assert_eq!(color_for_code(4), rgb(800, 800, 400));
    assert_eq!(color_for_code(5), rgb(1000, 500, 0));
}

#[test]
fn formula_colors_are_capped() {
    assert_eq!(color_for_code(6), rgb(1000, 100, 1000));
    assert_eq!(color_for_code(7), rgb(1000, 85, 1000));
    assert_eq!(color_for_code(600), rgb(1000, 1, 1000));
    assert_eq!(color_for_code(u32::MAX), rgb(1000, 0, 1000));
}

#[test]
fn empty_solid_and_destructible_tiles() {
    assert_eq!(brick_for_code(0, 1, 2), None);
    let solid = brick_for_code(1, 1, 2).unwrap();
    assert!(solid.solid && !solid.destroyed);
    assert_eq!((solid.column, solid.row), (1, 2));
    let soft = brick_for_code(3, 0, 0).unwrap();
    assert!(!soft.solid);
    assert_eq!(soft.color, rgb(0, 700, 0));
}

#[test]
fn bricks_of_a_level_in_row_major_order() {
    let g = parse("3:2\n1,0,2\n0,4,0\n").unwrap();
    let bricks = level_bricks(&g);
    let places: Vec<(u32, u32)> = bricks.iter().map(|b| (b.column, b.row)).collect();
    assert_eq!(places, vec![(0, 0), (2, 0), (1, 1)]);
    assert!(bricks[0].solid);
    assert_eq!(bricks[2].color, rgb(800, 800, 400));
}

#[test]
fn level_completion() {
    let mut bricks: Vec<Brick> = level_bricks(&parse("2:1\n1,2\n").unwrap());
    assert!(!level_is_completed(&bricks));
    bricks[1].destroyed = true;
    assert!(bricks[1].is_completed());
    assert!(level_is_completed(&bricks));
    assert!(level_is_completed(&Vec::new()));
}
