//! A simpler front end that draws straight to the terminal: a world of
//! individual cells with fixed rules, a camera sized to the terminal, and
//! the decisions of its event loops.

pub mod camera;
pub mod control;
pub mod world;
