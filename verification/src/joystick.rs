//! The joystick: its two axes, its button, and where the stick rests.

use vstd::prelude::*;

verus! {

/// Raw sample units that move the ball by one position.
pub const SAMPLES_PER_STEP: i32 = 128;

/// A joystick with the samples that its axes give at rest.
pub struct Joystick<X, Y, BTN> {
    pub axis_x: X,
    pub axis_y: Y,
    pub button: BTN,
    pub mid_x: u16,
    pub mid_y: u16,
}

/// `a` divided by the positive `b`, rounded toward zero.
pub open spec fn toward_zero(a: int, b: int) -> int {
    if a >= 0 {
        a / b
    } else {
        -((-a) / b)
    }
}

impl<X, Y, BTN> Joystick<X, Y, BTN> {
    /// A joystick on the given axes and button that rests at the given
    /// samples.
    pub fn new(x: X, y: Y, btn: BTN, mid_x: u16, mid_y: u16) -> (r: Joystick<X, Y, BTN>)
        ensures
            r.axis_x == x,
            r.axis_y == y,
            r.button == btn,
            r.mid_x == mid_x,
            r.mid_y == mid_y,
    {
        Joystick { axis_x: x, axis_y: y, button: btn, mid_x, mid_y }
    }

    /// How far a pair of samples asks the ball to move.
    pub open spec fn asked(&self, x: u16, y: u16) -> (int, int) {
        (
            toward_zero(self.mid_x - x, SAMPLES_PER_STEP as int),
            toward_zero(y - self.mid_y, SAMPLES_PER_STEP as int),
        )
    }

    /// How far a pair of samples asks the ball to move along x and along y.
    /// The x axis is mounted the other way round: a sample below rest moves
    /// the ball to the right.
    pub fn deflection(&self, x: u16, y: u16) -> (r: (i16, i16))
        ensures
            (r.0 as int, r.1 as int) == self.asked(x, y),
    {
        let valx: i32 = (self.mid_x as i32 - x as i32) / SAMPLES_PER_STEP;
        let valy: i32 = (y as i32 - self.mid_y as i32) / SAMPLES_PER_STEP;
        (valx as i16, valy as i16)
    }
}

} // verus!
