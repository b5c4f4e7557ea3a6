//! Conway-style cellular automaton on an unbounded grid, stored as sparse
//! 32x32 bit-mask chunks, together with the camera, settings, key-binding and
//! settings-screen logic of its terminal front end.

pub mod chunk;
pub mod geometry;
pub mod world;
pub mod camera;
pub mod input;
pub mod keys;
pub mod strmap;
pub mod settings;
pub mod simulation;
pub mod widgets;
pub mod settings_screen;
pub mod terminal;
