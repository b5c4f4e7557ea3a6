//! A camera sized to the terminal.

use vstd::prelude::*;

use crate::geometry::in_i64;

verus! {

/// The camera: its position in the world, its zoom level and the size of the
/// terminal.
#[derive(Clone, Copy, Debug)]
pub struct Camera {
    pub pos_x: i64,
    pub pos_y: i64,
    pub zoom: i64,
    pub term_width: u16,
    pub term_height: u16,
}

/// The terminal cell of the world cell `(x, y)` seen from `(pos_x, pos_y)`:
/// the offsets cut to 16 bits.
pub open spec fn world_to_screen_spec(pos_x: int, pos_y: int, x: int, y: int) -> (u16, u16) {
    ((x - pos_x) as u16, (y - pos_y) as u16)
}

impl Camera {
    /// A camera at the origin, zoom level 1, for a terminal of the given
    /// size.
    pub fn new(term_width: u16, term_height: u16) -> (c: Self)
        ensures
            c.pos_x == 0,
            c.pos_y == 0,
            c.zoom == 1,
            c.term_width == term_width,
            c.term_height == term_height,
    {
        Camera { pos_x: 0, pos_y: 0, zoom: 1, term_width, term_height }
    }

    /// The world cell under the terminal cell `(x, y)`.
    pub fn screen_to_world(&mut self, x: u16, y: u16) -> (r: (i64, i64))
        requires
            in_i64(x + old(self).pos_x),
            in_i64(y + old(self).pos_y),
        ensures
            r.0 == x + old(self).pos_x,
            r.1 == y + old(self).pos_y,
            *final(self) == *old(self),
    {
        (x as i64 + self.pos_x, y as i64 + self.pos_y)
    }

    /// The terminal cell of the world cell `(x, y)`.
    pub fn world_to_screen(&mut self, x: i64, y: i64) -> (r: (u16, u16))
        requires
            in_i64(x - old(self).pos_x),
            in_i64(y - old(self).pos_y),
        ensures
            r == world_to_screen_spec(old(self).pos_x as int, old(self).pos_y as int, x as int, y as int),
            *final(self) == *old(self),
    {
        ((x - self.pos_x) as u16, (y - self.pos_y) as u16)
    }
}

/// Within the reach of the terminal, the terminal cell of the world cell
/// under a terminal cell is that terminal cell.
pub proof fn lemma_screen_round_trip(pos_x: int, pos_y: int, x: u16, y: u16)
    ensures
        world_to_screen_spec(pos_x, pos_y, x + pos_x, y + pos_y) == (x, y),
{
}

} // verus!
