use led_maze::ball::{Ball, PANEL_HEIGHT, PANEL_WIDTH};
use led_maze::cell::Cell;
use led_maze::game::{input, next_scan_row, propose, resolve_move};
use led_maze::generator::MazeGenerator;
use led_maze::joystick::Joystick;
use led_maze::maze::{Direction, Maze, Point, HEIGHT, WIDTH};

fn at(x: u16, y: u16) -> Ball {
    led_maze::ball::Point { x, y }
}

#[test]
fn new_ball_is_in_the_corner() {
    assert_eq!(Ball::new(), at(0, 0));
}

#[test]
fn ball_rests_in_the_middle_of_a_cell_area() {
    assert_eq!(Ball::from_point(&Point { x: 0, y: 0 }), at(16, 16));
    assert_eq!(Ball::from_point(&Point { x: 1, y: 2 }), at(48, 80));
    assert_eq!(Ball::from_point(&Point { x: 31, y: 15 }), at(1008, 496));
    assert_eq!(Ball::from_point(&Point { x: 255, y: 255 }), at(8176, 8176));
}

#[test]
fn ball_is_found_in_the_cell_it_is_over() {
    assert_eq!(at(0, 0).to_point(), Point { x: 0, y: 0 });
    assert_eq!(at(31, 31).to_point(), Point { x: 0, y: 0 });
    assert_eq!(at(32, 31).to_point(), Point { x: 1, y: 0 });
    assert_eq!(at(1023, 511).to_point(), Point { x: 31, y: 15 });
    assert_eq!(at(500, 300).to_point(), Point { x: 15, y: 9 });
    // off the panel, columns and rows are counted modulo 256
    assert_eq!(at(1024, 512).to_point(), Point { x: 32, y: 16 });
    assert_eq!(at(8192, 8224).to_point(), Point { x: 0, y: 1 });
    assert_eq!(at(65535, 65535).to_point(), Point { x: 255, y: 255 });
}

#[test]
fn a_ball_at_rest_is_found_where_it_was_put() {
    for y in 0..HEIGHT {
        for x in 0..WIDTH {
            let p = Point { x, y };
            let ball = Ball::from_point(&p);
            assert!(ball.x < PANEL_WIDTH && ball.y < PANEL_HEIGHT);
            assert_eq!(ball.to_point(), p);
        }
    }
}

#[test]
fn cell_of_a_point_holds_its_center() {
    for y in 0..HEIGHT {
        for x in 0..WIDTH {
            let cell = Cell::of_point(&Point { x, y });
            let center = cell.center();
            assert_eq!(center, at(32 * x as u16 + 20, 32 * y as u16 + 20));
            assert!(cell.contains(&center));
            assert!(cell.contains(&Ball::from_point(&Point { x, y })));
        }
    }
}

#[test]
fn cell_does_not_hold_what_is_one_step_outside() {
    let cell = Cell::of_point(&Point { x: 3, y: 2 });
    // the floor runs from 104 to 127 across and from 72 to 95 down
    assert!(cell.contains(&at(104, 72)));
    assert!(cell.contains(&at(127, 95)));
    assert!(cell.contains(&at(104, 95)));
    assert!(cell.contains(&at(127, 72)));
    assert!(!cell.contains(&at(103, 72)));
    assert!(!cell.contains(&at(104, 71)));
    assert!(!cell.contains(&at(128, 95)));
    assert!(!cell.contains(&at(127, 96)));
    assert!(!cell.contains(&at(103, 90)));
    assert!(!cell.contains(&at(128, 90)));
    assert!(!cell.contains(&at(120, 71)));
    assert!(!cell.contains(&at(120, 96)));
    assert!(!cell.contains(&at(0, 0)));
    assert!(!cell.contains(&at(65535, 65535)));
}

#[test]
fn floor_of_a_cell_lies_behind_its_wall_strips() {
    let floor = Cell::of_ball_point(&at(70, 40));
    assert_eq!(floor.grid_column(), 2);
    assert_eq!(floor.grid_row(), 1);
    assert!(floor.contains(&at(72, 40)));
    assert!(floor.contains(&at(95, 63)));
    assert!(!floor.contains(&at(71, 40)));
    assert!(!floor.contains(&at(72, 39)));
    assert!(!floor.contains(&at(96, 40)));
    assert!(!floor.contains(&at(72, 64)));
    // a position on a wall strip belongs to the cell whose strip it is
    assert_eq!(floor, Cell::of_ball_point(&at(64, 32)));
    assert_eq!(floor, Cell::of_ball_point(&at(95, 63)));
    assert!(floor != Cell::of_ball_point(&at(96, 63)));
    assert!(!floor.contains(&at(64, 32)));
}

#[test]
fn every_position_has_one_floor() {
    for x in (0..PANEL_WIDTH).step_by(3) {
        for y in (0..PANEL_HEIGHT).step_by(5) {
            let floor = Cell::of_ball_point(&at(x, y));
            assert_eq!(floor.grid_column(), x / 32);
            assert_eq!(floor.grid_row(), y / 32);
            assert_eq!(floor.contains(&at(x, y)), x % 32 >= 8 && y % 32 >= 8);
        }
    }
    let far = Cell::of_ball_point(&at(65535, 65535));
    assert_eq!(far.grid_column(), 2047);
    assert_eq!(far.grid_row(), 2047);
    assert!(far.contains(&at(65535, 65535)));
    assert!(far.contains(&at(65512, 65535)));
    assert!(!far.contains(&at(65511, 65535)));
}

#[test]
fn a_maze_cell_has_one_floor() {
    for y in 0..HEIGHT {
        for x in 0..WIDTH {
            let p = Point { x, y };
            let cell = Cell::of_point(&p);
            assert_eq!(cell, Cell::of_ball_point(&Ball::from_point(&p)));
            assert_eq!(cell.grid_column(), x as u16);
            assert_eq!(cell.grid_row(), y as u16);
            for (dx, dy) in [(0, 0), (31, 0), (0, 31), (31, 31), (7, 8), (8, 7), (20, 20)] {
                let b = at(32 * x as u16 + dx, 32 * y as u16 + dy);
                assert_eq!(b.to_point(), p);
                assert_eq!(Cell::of_ball_point(&b), cell);
                assert_eq!(cell.contains(&b), dx >= 8 && dy >= 8);
            }
        }
    }
    // no floor reaches into the next cell
    let cell = Cell::of_point(&Point { x: 1, y: 0 });
    assert!(!cell.contains(&at(70, 20)));
    assert!(Cell::of_point(&Point { x: 2, y: 0 }).contains(&at(72, 20)));
    assert!(cell != Cell::of_point(&Point { x: 2, y: 0 }));
}

#[test]
fn bound_x_holds_a_position_between_the_edges() {
    let floor = Cell::of_ball_point(&at(70, 40));
    let mut p = at(60, 10);
    floor.bound_x(&mut p);
    assert_eq!(p, at(72, 10));
    let mut p = at(100, 500);
    floor.bound_x(&mut p);
    assert_eq!(p, at(95, 500));
    let mut p = at(80, 0);
    floor.bound_x(&mut p);
    assert_eq!(p, at(80, 0));
    let mut p = at(72, 7);
    floor.bound_x(&mut p);
    assert_eq!(p, at(72, 7));
    let mut p = at(95, 7);
    floor.bound_x(&mut p);
    assert_eq!(p, at(95, 7));
    let mut p = at(96, 7);
    floor.bound_x(&mut p);
    assert_eq!(p, at(95, 7));
}

#[test]
fn bound_y_holds_a_position_between_the_edges() {
    let floor = Cell::of_ball_point(&at(70, 40));
    let mut p = at(10, 30);
    floor.bound_y(&mut p);
    assert_eq!(p, at(10, 40));
    let mut p = at(500, 100);
    floor.bound_y(&mut p);
    assert_eq!(p, at(500, 63));
    let mut p = at(0, 50);
    floor.bound_y(&mut p);
    assert_eq!(p, at(0, 50));
    let mut p = at(0, 64);
    floor.bound_y(&mut p);
    assert_eq!(p, at(0, 63));
    let mut p = at(0, 39);
    floor.bound_y(&mut p);
    assert_eq!(p, at(0, 40));
}

#[test]
fn proposed_move_stays_on_the_panel() {
    assert_eq!(propose(&at(100, 100), 5, -7), at(105, 93));
    assert_eq!(propose(&at(3, 2), -5, -7), at(0, 0));
    assert_eq!(propose(&at(1020, 510), 5, 7), at(1023, 511));
    assert_eq!(propose(&at(1020, 510), 3, 1), at(1023, 511));
    assert_eq!(propose(&at(0, 0), i16::MIN, i16::MAX), at(0, 511));
    assert_eq!(propose(&at(65535, 65535), i16::MAX, i16::MIN), at(1023, 511));
    assert_eq!(propose(&at(65535, 65535), i16::MIN, i16::MIN), at(1023, 511));
    assert_eq!(propose(&at(40000, 500), i16::MIN, 0), at(1023, 500));
    assert_eq!(propose(&at(500, 500), 0, 0), at(500, 500));
}

#[test]
fn ball_moves_freely_on_its_floor() {
    let maze = Maze::new();
    let ball = Ball::from_point(&Point { x: 1, y: 1 });
    assert_eq!(resolve_move(&maze, &ball, &at(60, 41)), at(60, 41));
    assert_eq!(resolve_move(&maze, &ball, &at(40, 63)), at(40, 63));
    assert_eq!(resolve_move(&maze, &ball, &ball), ball);
}

#[test]
fn ball_may_stand_on_the_wall_strips_of_its_own_cell() {
    let maze = Maze::new();
    let ball = Ball::from_point(&Point { x: 1, y: 1 });
    assert_eq!(resolve_move(&maze, &ball, &at(33, 48)), at(33, 48));
    assert_eq!(resolve_move(&maze, &ball, &at(48, 32)), at(48, 32));
    // but not go on from there through the wall
    assert_eq!(resolve_move(&maze, &at(33, 48), &at(30, 48)), at(40, 48));
    assert_eq!(resolve_move(&maze, &at(48, 32), &at(48, 29)), at(48, 40));
}

#[test]
fn ball_slides_along_a_wall() {
    let mut maze = Maze::new();
    let cell = Point { x: 1, y: 1 };
    maze.break_wall(cell, Direction::Bottom);
    let ball = Ball::from_point(&cell);
    assert_eq!(ball, at(48, 48));
    // to the right a wall, below a passage
    assert_eq!(resolve_move(&maze, &ball, &at(70, 70)), at(63, 70));
    // the way right is closed whatever the move along y
    assert_eq!(resolve_move(&maze, &ball, &at(70, 48)), at(63, 48));
    // to the left a wall as well
    assert_eq!(resolve_move(&maze, &ball, &at(20, 70)), at(40, 70));
    let mut maze = Maze::new();
    maze.break_wall(cell, Direction::Right);
    // to the right a passage, below a wall
    assert_eq!(resolve_move(&maze, &ball, &at(70, 70)), at(70, 63));
    // above a wall
    assert_eq!(resolve_move(&maze, &ball, &at(70, 20)), at(70, 40));
}

#[test]
fn ball_is_stopped_by_walls_on_both_sides() {
    let maze = Maze::new();
    let ball = Ball::from_point(&Point { x: 4, y: 4 });
    assert_eq!(resolve_move(&maze, &ball, &at(170, 170)), at(159, 159));
    assert_eq!(resolve_move(&maze, &ball, &at(100, 100)), at(136, 136));
}

#[test]
fn ball_passes_where_the_wall_is_down() {
    let mut maze = Maze::new();
    let cell = Point { x: 4, y: 4 };
    maze.break_wall(cell, Direction::Left);
    maze.break_wall(cell, Direction::Top);
    let ball = Ball::from_point(&cell);
    assert_eq!(resolve_move(&maze, &ball, &at(120, 144)), at(120, 144));
    assert_eq!(resolve_move(&maze, &ball, &at(144, 120)), at(144, 120));
    // slantwise: across the left wall first, then up against the wall
    // above the cell it came to
    assert_eq!(resolve_move(&maze, &ball, &at(120, 120)), at(120, 136));
}

#[test]
fn ball_does_not_leap_over_a_cell() {
    let mut maze = Maze::new();
    for x in 0..WIDTH {
        for y in 0..HEIGHT {
            maze.break_wall(Point { x, y }, Direction::Left);
            maze.break_wall(Point { x, y }, Direction::Top);
        }
    }
    let ball = Ball::from_point(&Point { x: 4, y: 4 });
    assert_eq!(resolve_move(&maze, &ball, &at(144 + 64, 144)), at(159, 144));
    assert_eq!(resolve_move(&maze, &ball, &at(144, 144 - 64)), at(144, 136));
    assert_eq!(resolve_move(&maze, &ball, &at(144 + 32, 144 + 32)), at(176, 176));
}

#[test]
fn joystick_keeps_what_it_is_given() {
    let stick = Joystick::new(1u8, "y", true, 2048, 2000);
    assert_eq!(stick.axis_x, 1u8);
    assert_eq!(stick.axis_y, "y");
    assert!(stick.button);
    assert_eq!(stick.mid_x, 2048);
    assert_eq!(stick.mid_y, 2000);
}

#[test]
fn joystick_deflection_is_rounded_toward_zero() {
    let stick = Joystick::new((), (), (), 2048, 2000);
    assert_eq!(stick.deflection(2048, 2000), (0, 0));
    assert_eq!(stick.deflection(0, 4095), (16, 16));
    assert_eq!(stick.deflection(4095, 0), (-15, -15));
    assert_eq!(stick.deflection(2048 - 127, 2000 + 127), (0, 0));
    assert_eq!(stick.deflection(2048 - 128, 2000 + 128), (1, 1));
    assert_eq!(stick.deflection(2048 + 127, 2000 - 127), (0, 0));
    assert_eq!(stick.deflection(2048 + 128, 2000 - 128), (-1, -1));
    assert_eq!(stick.deflection(2048 + 255, 2000 - 255), (-1, -1));
    assert_eq!(stick.deflection(2048 + 256, 2000 - 256), (-2, -2));
    let wide = Joystick::new((), (), (), 65535, 0);
    assert_eq!(wide.deflection(0, 65535), (511, 511));
    let wide = Joystick::new((), (), (), 0, 65535);
    assert_eq!(wide.deflection(65535, 0), (-511, -511));
}

#[test]
fn one_sample_moves_the_ball() {
    let mut maze = Maze::new();
    let cell = Point { x: 1, y: 1 };
    maze.break_wall(cell, Direction::Bottom);
    let stick = Joystick::new((), (), (), 2048, 2048);
    let ball = Ball::from_point(&cell);
    // x is mounted the other way round
    assert_eq!(input(&maze, &ball, &stick, 2048 - 512, 2048 + 512), at(52, 52));
    assert_eq!(input(&maze, &ball, &stick, 2048 + 512, 2048 - 512), at(44, 44));
    assert_eq!(input(&maze, &ball, &stick, 0, 4095), at(63, 63));
    assert_eq!(input(&maze, &at(63, 63), &stick, 0, 4095), at(63, 78));
    assert_eq!(input(&maze, &at(1, 1), &stick, 4095, 0), at(0, 0));
}

#[test]
fn scan_lines_are_shown_in_turn() {
    let mut row = 0u8;
    for turn in 0..100u8 {
        let shown = next_scan_row(&mut row);
        assert_eq!(shown, turn % 32);
        assert_eq!(row, shown + 1);
    }
    let mut row = 32u8;
    assert_eq!(next_scan_row(&mut row), 0);
    assert_eq!(row, 1);
    let mut row = 200u8;
    assert_eq!(next_scan_row(&mut row), 0);
    assert_eq!(row, 1);
    let mut row = 31u8;
    assert_eq!(next_scan_row(&mut row), 31);
    assert_eq!(row, 32);
}

#[test]
fn points_know_whether_they_are_in_the_grid() {
    assert!(Point { x: 0, y: 0 }.is_in_grid());
    assert!(Point { x: WIDTH - 1, y: HEIGHT - 1 }.is_in_grid());
    assert!(!Point { x: WIDTH, y: 0 }.is_in_grid());
    assert!(!Point { x: 0, y: HEIGHT }.is_in_grid());
    assert!(!Point { x: 255, y: 255 }.is_in_grid());
}

#[test]
fn positions_know_whether_they_are_on_the_panel() {
    assert!(at(0, 0).is_on_panel());
    assert!(at(1023, 511).is_on_panel());
    assert!(!at(1024, 0).is_on_panel());
    assert!(!at(0, 512).is_on_panel());
    assert!(!at(65535, 65535).is_on_panel());
}

/// The two cells are the same or share a passage.
fn may_pass(maze: &Maze, from: Ball, to: Ball) -> bool {
    maze.connected(&Cell::of_ball_point(&from), &Cell::of_ball_point(&to))
}

#[test]
fn the_ball_never_goes_through_a_wall() {
    let mut maze = Maze::new();
    MazeGenerator::new().generate(&mut maze);
    let mut ball = Ball::from_point(&maze.start);
    let mut seed: u32 = 12345;
    let mut cells_seen = std::collections::BTreeSet::new();
    for _ in 0..200_000 {
        seed = seed.wrapping_mul(1664525).wrapping_add(1013904223);
        let dx = ((seed >> 8) % 63) as i16 - 31;
        let dy = ((seed >> 20) % 63) as i16 - 31;
        let target = propose(&ball, dx, dy);
        let after = resolve_move(&maze, &ball, &target);
        assert!(after.is_on_panel());
        let between = at(after.x, ball.y);
        assert!(may_pass(&maze, ball, between));
        assert!(may_pass(&maze, between, after));
        // what is granted is granted in full, what is not stops at the floor
        assert!(after.x == target.x || after.x % 32 == 8 || after.x % 32 == 31);
        assert!(after.y == target.y || after.y % 32 == 8 || after.y % 32 == 31);
        ball = after;
        cells_seen.insert((ball.x / 32, ball.y / 32));
    }
    // the ball got about
    assert!(cells_seen.len() > 20);
}

#[test]
fn a_ball_at_rest_slides_as_the_walls_allow() {
    let mut maze = Maze::new();
    MazeGenerator::new().generate(&mut maze);
    for y in 1..HEIGHT - 1 {
        for x in 1..WIDTH - 1 {
            let cell = Point { x, y };
            let ball = Ball::from_point(&cell);
            let here = Cell::of_point(&cell);
            let right = maze.connected(&here, &Cell::of_point(&cell.right()));
            let below = maze.connected(&here, &Cell::of_point(&cell.bottom()));
            // a push down and to the right, into the cells beyond
            let target = at(ball.x + 30, ball.y + 30);
            let after = resolve_move(&maze, &ball, &target);
            if !right && below {
                assert_eq!(after, at(32 * x as u16 + 31, target.y));
            }
            if !right && !below {
                assert_eq!(after, at(32 * x as u16 + 31, 32 * y as u16 + 31));
            }
            if right {
                assert_eq!(after.x, target.x);
                let beyond = Cell::of_point(&cell.right());
                let on = maze.connected(&beyond, &Cell::of_point(&cell.right().bottom()));
                assert_eq!(after.y, if on { target.y } else { 32 * y as u16 + 31 });
            }
        }
    }
}
