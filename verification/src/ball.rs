//! The player's token: a position on the panel, finer than one pixel.

use vstd::prelude::*;

verus! {

/// Position units in one panel pixel.
pub const PWM_FREQUENCY: u16 = 8;

/// Panel pixels across one maze cell, its wall line included.
pub const CELL_PIXELS: u16 = 4;

/// Position units across one maze cell, its wall line included.
pub const CELL_PITCH: u16 = 32;

/// Position units across the panel.
pub const PANEL_WIDTH: u16 = 1024;

/// Position units down the panel.
pub const PANEL_HEIGHT: u16 = 512;

/// A position in units of an eighth of a panel pixel.
#[derive(Clone, Copy, Debug, PartialEq, Eq, Structural)]
pub struct Point {
    pub x: u16,
    pub y: u16,
}

/// The ball is its position.
pub type Ball = Point;

impl Point {
    /// The position lies on the panel.
    pub open spec fn on_panel(self) -> bool {
        self.x < PANEL_WIDTH && self.y < PANEL_HEIGHT
    }

    /// The position at which a ball rests in the given maze cell.
    pub open spec fn resting_in(p: crate::maze::Point) -> Point {
        Point {
            x: ((p.x * CELL_PIXELS + 2) * PWM_FREQUENCY) as u16,
            y: ((p.y * CELL_PIXELS + 2) * PWM_FREQUENCY) as u16,
        }
    }

    /// The maze cell whose panel area holds the position; columns and rows
    /// are counted modulo 256.
    pub open spec fn cell_address(self) -> crate::maze::Point {
        crate::maze::Point {
            x: ((self.x / PWM_FREQUENCY) / CELL_PIXELS) as u8,
            y: ((self.y / PWM_FREQUENCY) / CELL_PIXELS) as u8,
        }
    }

    /// Whether the position lies on the panel.
    pub fn is_on_panel(&self) -> (r: bool)
        ensures
            r == self.on_panel(),
    {
        self.x < PANEL_WIDTH && self.y < PANEL_HEIGHT
    }

    /// A ball in the panel's top left corner.
    pub fn new() -> (r: Ball)
        ensures
            r == (Point { x: 0, y: 0 }),
    {
        Point { x: 0, y: 0 }
    }

    /// A ball resting in the given maze cell.
    pub fn from_point(p: &crate::maze::Point) -> (r: Ball)
        ensures
            r == Self::resting_in(*p),
            r.x == CELL_PITCH * p.x + 16,
            r.y == CELL_PITCH * p.y + 16,
            p.in_grid() ==> r.on_panel(),
    {
        Point {
            x: (p.x as u16 * CELL_PIXELS + 2) * PWM_FREQUENCY,
            y: (p.y as u16 * CELL_PIXELS + 2) * PWM_FREQUENCY,
        }
    }

    /// The maze cell under the ball.
    pub fn to_point(&self) -> (r: crate::maze::Point)
        ensures
            r == self.cell_address(),
            self.on_panel() ==> r.in_grid() && r.x == self.x / CELL_PITCH && r.y == self.y
                / CELL_PITCH,
    {
        crate::maze::Point {
            x: #[verifier::truncate]
            (((self.x / PWM_FREQUENCY) / CELL_PIXELS) as u8),
            y: #[verifier::truncate]
            (((self.y / PWM_FREQUENCY) / CELL_PIXELS) as u8),
        }
    }
}

/// A ball set to rest in a cell of the grid is found in that cell again.
pub proof fn lemma_rest_then_locate(p: crate::maze::Point)
    requires
        p.in_grid(),
    ensures
        Point::resting_in(p).on_panel(),
        Point::resting_in(p).cell_address() == p,
{
}

} // verus!
