//! The rules of play: how a joystick sample moves the ball through the
//! passages, which scan line is shown next, and how a round gives way to
//! the next one.

use vstd::prelude::*;
use crate::ball::{Ball, Point, CELL_PITCH, PANEL_HEIGHT, PANEL_WIDTH};
use crate::cell::Cell;
use crate::display::SCAN_ROWS;
use crate::generator::MazeGenerator;
use crate::joystick::Joystick;
use crate::maze::Maze;

verus! {

/// `v` held between `low` and `high`.
pub open spec fn held(v: int, low: int, high: int) -> int {
    if v < low {
        low
    } else if v > high {
        high
    } else {
        v
    }
}

/// Where a move by `dx` and `dy` would take the ball, held on the panel.
pub open spec fn moved(ball: Ball, dx: int, dy: int) -> Ball {
    Point {
        x: held(ball.x + dx, 0, PANEL_WIDTH - 1) as u16,
        y: held(ball.y + dy, 0, PANEL_HEIGHT - 1) as u16,
    }
}

/// The column that a ball at `from` ends in when it is asked to go to
/// column `x`: that column where the floor it is on holds the new position
/// or a passage leads to the cell there, else the nearest column of its
/// floor.
pub open spec fn pass_x(maze: &Maze, from: Ball, x: u16) -> u16 {
    let cell = Cell::floor_at(from);
    let to = Point { x, y: from.y };
    if cell.holds(to) || maze.linked(cell, Cell::floor_at(to)) {
        x
    } else {
        cell.bounded_x(x) as u16
    }
}

/// The row that a ball at `from` ends in when it is asked to go to row
/// `y`: that row where the floor it is on holds the new position or a
/// passage leads to the cell there, else the nearest row of its floor.
pub open spec fn pass_y(maze: &Maze, from: Ball, y: u16) -> u16 {
    let cell = Cell::floor_at(from);
    let to = Point { x: from.x, y };
    if cell.holds(to) || maze.linked(cell, Cell::floor_at(to)) {
        y
    } else {
        cell.bounded_y(y) as u16
    }
}

/// Where a ball that is asked to go to `target` ends: it moves along x
/// first, then, from where that took it, along y.
pub open spec fn resolved(maze: &Maze, ball: Ball, target: Ball) -> Ball {
    let x = pass_x(maze, ball, target.x);
    Point { x, y: pass_y(maze, Point { x, y: ball.y }, target.y) }
}

/// Where a move by `dx` and `dy` would take the ball if no wall stood in
/// its way: nowhere off the panel.
pub fn propose(ball: &Ball, dx: i16, dy: i16) -> (r: Ball)
    ensures
        r == moved(*ball, dx as int, dy as int),
        r.on_panel(),
{
    let mut newx: i32 = ball.x as i32 + dx as i32;
    let mut newy: i32 = ball.y as i32 + dy as i32;
    if newx < 0 {
        newx = 0;
    }
    if newy < 0 {
        newy = 0;
    }
    if newx >= PANEL_WIDTH as i32 {
        newx = PANEL_WIDTH as i32 - 1;
    }
    if newy >= PANEL_HEIGHT as i32 {
        newy = PANEL_HEIGHT as i32 - 1;
    }
    Point { x: newx as u16, y: newy as u16 }
}

/// Moves the ball toward `target` as far as the walls allow. The move
/// along x is judged first: it stands if the ball stays on its floor or a
/// passage leads to the cell it would enter, else the ball stops at the
/// edge of its floor. The move along y is then judged in the same way from
/// where the ball has come to, so that a ball pushed slantwise against a
/// wall slides along it.
pub fn resolve_move(maze: &Maze, ball: &Ball, target: &Ball) -> (r: Ball)
    ensures
        r == resolved(maze, *ball, *target),
        ball.on_panel() && target.on_panel() ==> r.on_panel(),
{
    proof {
        if ball.on_panel() && target.on_panel() {
            lemma_stays_on_panel(maze, *ball, *target);
        }
    }
    // move on the x direction first
    let mut ball_after_screen_pos: Ball = Point { x: target.x, y: ball.y };
    let mut cell = Cell::of_ball_point(ball);
    if !cell.contains(&ball_after_screen_pos) {
        // Entered a new cell
        let new_cell = Cell::of_ball_point(&ball_after_screen_pos);
        if !maze.connected(&cell, &new_cell) {
            cell.bound_x(&mut ball_after_screen_pos);
        }
    }
    cell = Cell::of_ball_point(&ball_after_screen_pos);
    ball_after_screen_pos.y = target.y;
    if !cell.contains(&ball_after_screen_pos) {
        // Entered a new cell
        let new_cell = Cell::of_ball_point(&ball_after_screen_pos);
        if !maze.connected(&cell, &new_cell) {
            cell.bound_y(&mut ball_after_screen_pos);
        }
    }
    ball_after_screen_pos
}

/// Where the ball is after one sample of the joystick.
pub fn input<X, Y, BTN>(
    maze: &Maze,
    ball: &Ball,
    joystick: &Joystick<X, Y, BTN>,
    x: u16,
    y: u16,
) -> (r: Ball)
    ensures
        r == resolved(maze, *ball, moved(*ball, joystick.asked(x, y).0, joystick.asked(x, y).1)),
        ball.on_panel() ==> r.on_panel(),
{
    let (valx, valy) = joystick.deflection(x, y);
    let target = propose(ball, valx, valy);
    resolve_move(maze, ball, &target)
}

/// The scan line to show now, and in `current_row` the one to show after
/// it. The lines of a half of the panel are shown in turn, the first again
/// after the last.
pub fn next_scan_row(current_row: &mut u8) -> (row: u8)
    ensures
        row == if *old(current_row) >= SCAN_ROWS {
            0
        } else {
            *old(current_row)
        },
        row < SCAN_ROWS,
        *final(current_row) == row + 1,
{
    if *current_row >= SCAN_ROWS {
        *current_row = 0;
    }
    let row: u8 = *current_row;
    *current_row = row + 1;
    row
}

/// Begins the first round: a perfect maze is carved from a cell drawn at
/// random, and the ball is put to rest where the maze starts. The maze ends
/// in the top left cell.
pub fn begin_round(generator: &mut MazeGenerator) -> (r: (Maze, Ball))
    ensures
        r.0.is_perfect(),
        r.0.is_enclosed(),
        r.0.end == (crate::maze::Point { x: 0, y: 0 }),
        r.1 == Point::resting_in(r.0.start),
        r.1.cell_address() == r.0.start,
        r.1.on_panel(),
{
    let mut maze = Maze::new();
    generator.generate(&mut maze);
    let ball = Ball::from_point(&maze.start);
    (maze, ball)
}

/// The ball is in the cell where the round ends.
pub open spec fn at_end(maze: &Maze, ball: Ball) -> bool {
    ball.cell_address() == maze.end && maze.end.in_grid()
}

/// Whether the ball is in the cell where the round ends.
pub fn round_is_won(maze: &Maze, ball: &Ball) -> (r: bool)
    ensures
        r == at_end(maze, *ball),
{
    let point = ball.to_point();
    point == maze.end && point.is_in_grid()
}

/// Answers the confirm button. With the ball in the cell where the round
/// ends, the next round is made ready beside the running one and handed
/// back: a new perfect maze that starts where the old one ended and ends
/// where the old one started, and a ball at rest at its start. With the
/// ball anywhere else there is no next round yet. The running round is not
/// touched, so that whoever shows it meanwhile never sees a maze half
/// carved.
pub fn advance_round(maze: &Maze, ball: &Ball, generator: &mut MazeGenerator) -> (next: Option<
    (Maze, Ball)>)
    ensures
        next is Some <==> at_end(maze, *ball),
        next matches Some(round) ==> {
            &&& round.0.is_perfect()
            &&& round.0.is_enclosed()
            &&& round.0.start == maze.end
            &&& round.0.end == maze.start
            &&& round.1 == Point::resting_in(round.0.start)
            &&& round.1.cell_address() == round.0.start
            &&& round.1.on_panel()
        },
{
    if round_is_won(maze, ball) {
        let mut next = Maze::new();
        next.end = maze.start;
        generator.generate_from(&mut next, maze.end);
        let rested = Ball::from_point(&next.start);
        Some((next, rested))
    } else {
        None
    }
}

/// A ball on the panel that is asked to go to a position on the panel ends
/// on the panel.
pub proof fn lemma_stays_on_panel(maze: &Maze, ball: Ball, target: Ball)
    requires
        ball.on_panel(),
        target.on_panel(),
    ensures
        resolved(maze, ball, target).on_panel(),
{
    Cell::lemma_floor_layout(ball);
    let x = pass_x(maze, ball, target.x);
    Cell::lemma_floor_layout(Point { x, y: ball.y });
}

/// The ball never goes through a wall. Whatever it is asked, the move along
/// x leaves it in its cell or takes it through a passage, and so does the
/// move along y that follows.
pub proof fn lemma_never_through_a_wall(maze: &Maze, ball: Ball, target: Ball)
    ensures
        ({
            let r = resolved(maze, ball, target);
            let between = Point { x: r.x, y: ball.y };
            &&& maze.linked(Cell::floor_at(ball), Cell::floor_at(between))
            &&& maze.linked(Cell::floor_at(between), Cell::floor_at(r))
        }),
{
    let r = resolved(maze, ball, target);
    let between = Point { x: r.x, y: ball.y };
    Cell::lemma_floor_layout(ball);
    Cell::lemma_floor_layout(Point { x: target.x, y: ball.y });
    Cell::lemma_floor_layout(between);
    Cell::lemma_floor_layout(Point { x: r.x, y: target.y });
    Cell::lemma_floor_layout(r);
}

/// A ball that rests in a cell of the grid and is asked to cross, along x,
/// into a cell to which no passage leads stays on the columns of its floor;
/// what it is asked to move along y is granted all the same where it stays
/// in its row of cells or a passage leads to the cell above or below.
pub proof fn lemma_slides_down_a_wall(maze: &Maze, p: crate::maze::Point, target: Ball)
    requires
        p.in_grid(),
        target.on_panel(),
        target.x / CELL_PITCH != p.x,
        !maze.passage(p, crate::maze::Point { x: (target.x / CELL_PITCH) as u8, y: p.y }),
        target.y / CELL_PITCH == p.y || maze.passage(
            p,
            crate::maze::Point { x: p.x, y: (target.y / CELL_PITCH) as u8 },
        ),
    ensures
        ({
            let floor = Cell::floor_at(Point::resting_in(p));
            let r = resolved(maze, Point::resting_in(p), target);
            &&& floor.left() <= r.x < floor.left() + floor.width()
            &&& r.x / CELL_PITCH == p.x
            &&& r.y == target.y
        }),
{
    let ball = Point::resting_in(p);
    let sideways = Point { x: target.x, y: ball.y };
    Cell::lemma_floor_layout(ball);
    Cell::lemma_floor_layout(sideways);
    let x = pass_x(maze, ball, target.x);
    let stopped = Point { x, y: ball.y };
    let onward = Point { x, y: target.y };
    Cell::lemma_floor_layout(stopped);
    Cell::lemma_floor_layout(onward);
}

/// A ball that rests in a cell of the grid and is asked to cross, along y,
/// into a cell to which no passage leads stays on the rows of its floor;
/// what it is asked to move along x is granted all the same where it stays
/// in its column of cells or a passage leads to the cell beside.
pub proof fn lemma_slides_along_a_wall(maze: &Maze, p: crate::maze::Point, target: Ball)
    requires
        p.in_grid(),
        target.on_panel(),
        target.x / CELL_PITCH == p.x || maze.passage(
            p,
            crate::maze::Point { x: (target.x / CELL_PITCH) as u8, y: p.y },
        ),
        target.y / CELL_PITCH != p.y,
        !maze.passage(
            crate::maze::Point { x: (target.x / CELL_PITCH) as u8, y: p.y },
            crate::maze::Point {
                x: (target.x / CELL_PITCH) as u8,
                y: (target.y / CELL_PITCH) as u8,
            },
        ),
    ensures
        ({
            let floor = Cell::floor_at(Point::resting_in(p));
            let r = resolved(maze, Point::resting_in(p), target);
            &&& r.x == target.x
            &&& floor.top() <= r.y < floor.top() + floor.height()
            &&& r.y / CELL_PITCH == p.y
        }),
{
    let ball = Point::resting_in(p);
    let sideways = Point { x: target.x, y: ball.y };
    Cell::lemma_floor_layout(ball);
    Cell::lemma_floor_layout(sideways);
    let x = pass_x(maze, ball, target.x);
    let onward = Point { x, y: target.y };
    Cell::lemma_floor_layout(onward);
}

} // verus!
