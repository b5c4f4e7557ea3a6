//! The camera over the world: its position, its zoom level, the pace at
//! which it may move, and the mapping between world cells and the cells of a
//! screen area.

use std::time::Instant;
use vstd::prelude::*;

use crate::geometry::in_i64;

verus! {

/// `std::time::Instant`, carried through as an opaque value.
#[verifier::external_type_specification]
#[verifier::external_body]
pub struct ExInstant(Instant);

/// `Instant::now`: the current instant. Nothing is promised of it.
#[verifier::external_body]
fn instant_now() -> Instant {
    Instant::now()
}

/// `Instant::duration_since`, in whole milliseconds (`Duration::as_millis`):
/// the time elapsed from `earlier` to `now`. It depends on the clock, so
/// nothing is promised of it.
#[verifier::external_body]
fn millis_between(now: &Instant, earlier: &Instant) -> u128 {
    now.duration_since(*earlier).as_millis()
}

/// `a + b` pushed into the range of `i64`.
pub open spec fn saturating_sum(a: int, b: int) -> int {
    if a + b > i64::MAX {
        i64::MAX as int
    } else if a + b < i64::MIN {
        i64::MIN as int
    } else {
        a + b
    }
}

/// `i64::saturating_add`: the sum, or the bound of `i64` it overflows.
#[verifier::external_body]
fn saturating_add(a: i64, b: i64) -> (r: i64)
    ensures
        r == saturating_sum(a as int, b as int),
{
    a.saturating_add(b)
}

/// A rectangular area of the screen.
#[derive(Clone, Copy, Debug, PartialEq, Eq, Structural)]
pub struct Rect {
    pub x: u16,
    pub y: u16,
    pub width: u16,
    pub height: u16,
}

/// `ratatui::layout::Rect::new`: the rectangle at `(x, y)` with its width and
/// height cut so that its right and bottom edges stay within `u16`.
#[verifier::external_body]
fn ratatui_rect(x: u16, y: u16, width: u16, height: u16) -> (r: Rect)
    ensures
        r.x == x,
        r.y == y,
        r.width == (if width > u16::MAX - x { (u16::MAX - x) as u16 } else { width }),
        r.height == (if height > u16::MAX - y { (u16::MAX - y) as u16 } else { height }),
{
    let r = ratatui::layout::Rect::new(x, y, width, height);
    Rect { x: r.x, y: r.y, width: r.width, height: r.height }
}

impl Rect {
    /// Every cell of the rectangle has a `u16` position.
    pub open spec fn wf(self) -> bool {
        self.x + self.width <= 0x10000 && self.y + self.height <= 0x10000
    }

    /// The rectangle at `(x, y)`, its width and height cut so that its right
    /// and bottom edges stay within `u16`.
    pub fn new(x: u16, y: u16, width: u16, height: u16) -> (r: Rect)
        ensures
            r.wf(),
            r.x == x,
            r.y == y,
            r.width == (if width > u16::MAX - x { (u16::MAX - x) as u16 } else { width }),
            r.height == (if height > u16::MAX - y { (u16::MAX - y) as u16 } else { height }),
    {
        ratatui_rect(x, y, width, height)
    }
}

/// The pause, in milliseconds, that must pass between two moves.
pub const MOVE_PAUSE_MS: u128 = 50;

/// The largest zoom level.
pub const MAX_ZOOM: i64 = 4;

/// The position of a world cell on the screen area `rect` seen from a camera
/// at `(pos_x, pos_y)`: the offsets are cut to 16-bit signed values, and
/// the cell shows only when both are within the area.
pub open spec fn world_to_buffer_spec(
    pos_x: int,
    pos_y: int,
    world_x: int,
    world_y: int,
    rect: Rect,
) -> Option<(u16, u16)> {
    let sx = (world_x - pos_x) as i16;
    let sy = (world_y - pos_y) as i16;
    if sx >= 0 && sx < rect.width && sy >= 0 && sy < rect.height {
        Some(((rect.x + sx) as u16, (rect.y + sy) as u16))
    } else {
        None
    }
}

/// The world cell under the screen cell `(col, row)` of `rect`.
pub open spec fn buffer_to_world_spec(pos_x: int, pos_y: int, col: int, row: int, rect: Rect) -> (
    int,
    int,
) {
    (pos_x + (col - rect.x), pos_y + (row - rect.y))
}

/// The zoom level after zooming in.
pub open spec fn zoom_in_spec(zoom: int) -> int {
    if zoom < 4 {
        zoom + 1
    } else {
        zoom
    }
}

/// The zoom level after zooming out.
pub open spec fn zoom_out_spec(zoom: int) -> int {
    if zoom > 1 {
        zoom - 1
    } else {
        zoom
    }
}

/// A 16-bit signed cut of an offset below 2^16 keeps it exactly when it is
/// below 2^15, and is negative otherwise.
pub proof fn lemma_offset_cut(d: int)
    requires
        0 <= d < 0x10000,
    ensures
        d < 0x8000 ==> d as i16 == d,
        d >= 0x8000 ==> (d as i16) < 0,
{
    let e = d as i64;
    assert(0 <= e < 0x10000 ==> (e < 0x8000 ==> e as i16 == e) && (e >= 0x8000 ==> (e as i16)
        < 0)) by (bit_vector);
}

/// The camera.
#[derive(Clone, Copy, Debug)]
pub struct Camera {
    pub pos_x: i64,
    pub pos_y: i64,
    pub zoom: i64,
    pub last_move: Option<Instant>,
}

impl Camera {
    /// A camera at the origin, zoom level 1, that has not moved yet.
    pub fn new() -> (c: Self)
        ensures
            c.pos_x == 0,
            c.pos_y == 0,
            c.zoom == 1,
            c.last_move == None::<Instant>,
    {
        Camera { pos_x: 0, pos_y: 0, zoom: 1, last_move: None }
    }

    /// The position of the world cell `(world_x, world_y)` on `rect`, or
    /// `None` where it is off the area.
    pub fn world_to_buffer(&self, world_x: i64, world_y: i64, rect: Rect) -> (r: Option<(u16, u16)>)
        requires
            rect.wf(),
            in_i64(world_x - self.pos_x),
            in_i64(world_y - self.pos_y),
        ensures
            r == world_to_buffer_spec(
                self.pos_x as int,
                self.pos_y as int,
                world_x as int,
                world_y as int,
                rect,
            ),
    {
        let screen_x = (world_x - self.pos_x) as i16;
        let screen_y = (world_y - self.pos_y) as i16;
        if screen_x >= 0 && (screen_x as u16) < rect.width && screen_y >= 0 && (screen_y as u16)
            < rect.height {
            Some((rect.x + screen_x as u16, rect.y + screen_y as u16))
        } else {
            None
        }
    }

    /// Moves by `(dx, dy)` (saturating) unless the last move was less than
    /// 50 ms ago; says whether it moved.
    pub fn try_move(&mut self, dx: i64, dy: i64) -> (moved: bool)
        ensures
            old(self).last_move is None ==> moved,
            !moved ==> *final(self) == *old(self),
            moved ==> final(self).pos_x == saturating_sum(old(self).pos_x as int, dx as int),
            moved ==> final(self).pos_y == saturating_sum(old(self).pos_y as int, dy as int),
            moved ==> final(self).last_move is Some,
            final(self).zoom == old(self).zoom,
    {
        let now = instant_now();
        let since = match &self.last_move {
            Some(last) => Some(millis_between(&now, last)),
            None => None,
        };
        self.move_at(dx, dy, now, since)
    }

    /// Moves by `(dx, dy)` at the instant `now`, given the milliseconds
    /// elapsed since the last move (`None` if there was none): a move that
    /// comes less than 50 ms after the last one is refused.
    pub fn move_at(&mut self, dx: i64, dy: i64, now: Instant, since_last_ms: Option<u128>) -> (moved: bool)
        ensures
            moved == !(since_last_ms matches Some(ms) && ms < MOVE_PAUSE_MS),
            !moved ==> *final(self) == *old(self),
            moved ==> final(self).pos_x == saturating_sum(old(self).pos_x as int, dx as int),
            moved ==> final(self).pos_y == saturating_sum(old(self).pos_y as int, dy as int),
            moved ==> final(self).last_move == Some(now),
            final(self).zoom == old(self).zoom,
    {
        if let Some(ms) = since_last_ms {
            if ms < MOVE_PAUSE_MS {
                return false;
            }
        }
        self.pos_x = saturating_add(self.pos_x, dx);
        self.pos_y = saturating_add(self.pos_y, dy);
        self.last_move = Some(now);
        true
    }

    /// The world cell under the screen cell `(col, row)` of `rect`.
    pub fn buffer_to_world(&self, col: u16, row: u16, rect: Rect) -> (r: (i64, i64))
        requires
            in_i64(self.pos_x + (col - rect.x)),
            in_i64(self.pos_y + (row - rect.y)),
        ensures
            (r.0 as int, r.1 as int) == buffer_to_world_spec(
                self.pos_x as int,
                self.pos_y as int,
                col as int,
                row as int,
                rect,
            ),
    {
        let rel_x = col as i64 - rect.x as i64;
        let rel_y = row as i64 - rect.y as i64;
        (self.pos_x + rel_x, self.pos_y + rel_y)
    }

    /// Zooms in one level, up to level 4.
    pub fn zoom_in(&mut self)
        ensures
            final(self).zoom == zoom_in_spec(old(self).zoom as int),
            1 <= old(self).zoom <= MAX_ZOOM ==> 1 <= final(self).zoom <= MAX_ZOOM,
            final(self).pos_x == old(self).pos_x,
            final(self).pos_y == old(self).pos_y,
            final(self).last_move == old(self).last_move,
    {
        if self.zoom < MAX_ZOOM {
            self.zoom += 1;
        }
    }

    /// Zooms out one level, down to level 1.
    pub fn zoom_out(&mut self)
        ensures
            final(self).zoom == zoom_out_spec(old(self).zoom as int),
            1 <= old(self).zoom <= MAX_ZOOM ==> 1 <= final(self).zoom <= MAX_ZOOM,
            final(self).pos_x == old(self).pos_x,
            final(self).pos_y == old(self).pos_y,
            final(self).last_move == old(self).last_move,
    {
        if self.zoom > 1 {
            self.zoom -= 1;
        }
    }
}

/// Zooming in and then out comes back to the same level, below the
/// largest level.
pub proof fn lemma_zoom_round_trip(zoom: int)
    requires
        1 <= zoom < 4,
    ensures
        zoom_out_spec(zoom_in_spec(zoom)) == zoom,
        zoom_in_spec(zoom_out_spec(zoom + 1)) == zoom + 1,
{
}

/// The screen cell of a world cell less than 2^16 cells right of and below
/// the camera that shows on `rect` is a cell of `rect`, and the world cell
/// under it is that world cell.
pub proof fn lemma_buffer_round_trip(pos_x: int, pos_y: int, world_x: int, world_y: int, rect: Rect)
    requires
        rect.wf(),
        world_to_buffer_spec(pos_x, pos_y, world_x, world_y, rect) is Some,
        0 <= world_x - pos_x < 0x10000,
        0 <= world_y - pos_y < 0x10000,
    ensures
        ({
            let (col, row) = world_to_buffer_spec(pos_x, pos_y, world_x, world_y, rect)->0;
            &&& rect.x <= col < rect.x + rect.width
            &&& rect.y <= row < rect.y + rect.height
            &&& buffer_to_world_spec(pos_x, pos_y, col as int, row as int, rect) == (
                world_x,
                world_y,
            )
        }),
{
    let dx = world_x - pos_x;
    let dy = world_y - pos_y;
    let sx = dx as i16;
    let sy = dy as i16;
    assert(0 <= sx < rect.width);
    assert(0 <= sy < rect.height);
    lemma_offset_cut(dx);
    lemma_offset_cut(dy);
}

} // verus!
