//! A maze game for a scanned LED panel: the wall grids and the maze they
//! form, the generator that carves a perfect maze, the geometry that keeps
//! the ball inside the passages, and the encoder that turns maze and ball
//! into the colour codes of one scan line.

pub mod ball;
pub mod cell;
pub mod display;
pub mod game;
pub mod generator;
pub mod hub;
pub mod joystick;
pub mod maze;
pub mod spanning;
