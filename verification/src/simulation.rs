//! The simulation screen: the world, the camera, pausing, the speed, and
//! what keys and mouse clicks do to them.

use vstd::prelude::*;

use crate::camera::{buffer_to_world_spec, lemma_buffer_round_trip, saturating_sum, zoom_in_spec, zoom_out_spec, Camera, Rect};
use crate::geometry::in_i64;
use crate::input::{InputEvent, KeyCode, KeyEventKind, MouseButton, MouseEventKind};
use crate::keys::{canonical_key_name, key_name_spec};
use crate::settings::{birth_key, speed_key, survival_key, value_or, AppState, Screen};
use crate::world::{block_cells, fits_tick_bounds, normal_glyph, shown_normal, tick_result, World};

verus! {

broadcast use vstd::string::group_string_axioms;

/// The number of speeds.
pub const SPEED_COUNT: usize = 5;

/// The position, among the speeds from slowest to fastest, of the speed
/// setting `speed` (1 to 5; anything else counts as 1).
pub open spec fn speed_index_spec(speed: usize) -> usize {
    if speed == 1 {
        2
    } else if speed == 2 {
        3
    } else if speed == 3 {
        4
    } else if speed == 4 {
        1
    } else if speed == 5 {
        0
    } else {
        2
    }
}

/// The speed setting at position `index` among the speeds from slowest to
/// fastest.
pub open spec fn speed_of_index_spec(index: usize) -> usize {
    if index == 0 {
        5
    } else if index == 1 {
        4
    } else if index == 2 {
        1
    } else if index == 3 {
        2
    } else if index == 4 {
        3
    } else {
        1
    }
}

/// The time between two steps, in milliseconds, at the speed in position
/// `index`: 2000, 1000, 500, 250 or 125.
pub open spec fn interval_spec(index: usize) -> u64 {
    if index == 0 {
        2000
    } else if index == 1 {
        1000
    } else if index == 2 {
        500
    } else if index == 3 {
        250
    } else {
        125
    }
}

/// The position of the speed setting `speed` among the speeds.
pub fn speed_index(speed: usize) -> (index: usize)
    ensures
        index == speed_index_spec(speed),
        index < SPEED_COUNT,
{
    match speed {
        1 => 2,
        2 => 3,
        3 => 4,
        4 => 1,
        5 => 0,
        _ => 2,
    }
}

/// The speed setting at position `index` among the speeds.
pub fn speed_of_index(index: usize) -> (speed: usize)
    ensures
        speed == speed_of_index_spec(index),
{
    match index {
        0 => 5,
        1 => 4,
        2 => 1,
        3 => 2,
        4 => 3,
        _ => 1,
    }
}

/// The time between two steps at the speed in position `index`.
pub fn interval_ms(index: usize) -> (ms: u64)
    requires
        index < SPEED_COUNT,
    ensures
        ms == interval_spec(index),
{
    let intervals: [u64; 5] = [2000, 1000, 500, 250, 125];
    intervals[index]
}

/// What a key can be bound to on the simulation screen.
#[derive(Clone, Copy, Debug, PartialEq, Eq, Structural)]
pub enum SimAction {
    Pause,
    Step,
    Right,
    Left,
    Up,
    Down,
    ZoomIn,
    ZoomOut,
    SpeedUp,
    SpeedDown,
}

/// The action named `id`.
pub open spec fn action_of_id_spec(id: Seq<char>) -> Option<SimAction> {
    if id == "pause"@ {
        Some(SimAction::Pause)
    } else if id == "step"@ {
        Some(SimAction::Step)
    } else if id == "right"@ {
        Some(SimAction::Right)
    } else if id == "left"@ {
        Some(SimAction::Left)
    } else if id == "up"@ {
        Some(SimAction::Up)
    } else if id == "down"@ {
        Some(SimAction::Down)
    } else if id == "zoom_in"@ {
        Some(SimAction::ZoomIn)
    } else if id == "zoom_out"@ {
        Some(SimAction::ZoomOut)
    } else if id == "speed_up"@ {
        Some(SimAction::SpeedUp)
    } else if id == "speed_down"@ {
        Some(SimAction::SpeedDown)
    } else {
        None
    }
}

/// A string holding `s`.
fn owned(s: &str) -> (r: String)
    ensures
        r@ == s@,
{
    s.to_string()
}

/// The action named `id`.
pub fn action_of_id(id: &String) -> (a: Option<SimAction>)
    ensures
        a == action_of_id_spec(id@),
{
    if *id == owned("pause") {
        Some(SimAction::Pause)
    } else if *id == owned("step") {
        Some(SimAction::Step)
    } else if *id == owned("right") {
        Some(SimAction::Right)
    } else if *id == owned("left") {
        Some(SimAction::Left)
    } else if *id == owned("up") {
        Some(SimAction::Up)
    } else if *id == owned("down") {
        Some(SimAction::Down)
    } else if *id == owned("zoom_in") {
        Some(SimAction::ZoomIn)
    } else if *id == owned("zoom_out") {
        Some(SimAction::ZoomOut)
    } else if *id == owned("speed_up") {
        Some(SimAction::SpeedUp)
    } else if *id == owned("speed_down") {
        Some(SimAction::SpeedDown)
    } else {
        None
    }
}

/// The cells of the glider placed in an empty world.
pub open spec fn glider_cells() -> Set<(int, int)> {
    set![(10int, 10int), (11int, 10int), (12int, 10int), (10int, 11int), (11int, 12int)]
}

/// The action bound to the key pressed in `ev`, if `ev` is a key press: the
/// first action, in the order they were bound, whose key has the name of
/// that key.
pub open spec fn pressed_action(state: AppState, ev: InputEvent) -> Option<SimAction> {
    match ev {
        InputEvent::Key(k) => if k.kind == KeyEventKind::Press {
            match state.key_bindings.first_key_of(key_name_spec(k.code)) {
                Some(id) => action_of_id_spec(id),
                None => None,
            }
        } else {
            None
        },
        _ => None,
    }
}

/// The simulation screen.
pub struct Simulation {
    pub world: World,
    pub camera: Camera,
    pub paused: bool,
    pub speed_index: usize,
    pub glider_placed: bool,
}

impl Simulation {
    /// The world is well formed and the speed is one of the speeds.
    pub open spec fn wf(self) -> bool {
        self.world.wf() && self.speed_index < SPEED_COUNT
    }

    /// Whether `ev` can be handled without overflow: a step needs the live
    /// cells away from the edges of the grid, and a click needs the cell
    /// under it to be on the grid.
    pub open spec fn input_safe(self, state: AppState, ev: InputEvent) -> bool {
        &&& pressed_action(state, ev) == Some(SimAction::Step) ==> fits_tick_bounds(self.world@)
        &&& self.click_safe(ev)
    }

    /// Whether the cell under a click of `ev` is on the grid.
    pub open spec fn click_safe(self, ev: InputEvent) -> bool {
        match ev {
            InputEvent::Mouse(m) => match m.kind {
                MouseEventKind::Down(_) => if self.camera.zoom == 1 {
                    in_i64(self.camera.pos_x + m.column) && in_i64(self.camera.pos_y + m.row)
                } else {
                    self.camera.pos_x + 2 * m.column < i64::MAX && self.camera.pos_y + 4 * m.row
                        <= i64::MAX - 3
                },
                _ => true,
            },
            _ => true,
        }
    }

    /// The simulation for the settings of `state`: an empty world with their
    /// rules (survival 1 and birth 3 where not set), the camera at the
    /// origin, running, at their speed.
    pub fn new(state: &AppState) -> (s: Self)
        ensures
            s.wf(),
            s.world@ == Set::<(int, int)>::empty(),
            s.world.survival_rule() == value_or(state.simulations_settings@, survival_key(), 1),
            s.world.birth_rule() == value_or(state.simulations_settings@, birth_key(), 3),
            s.speed_index == speed_index_spec(value_or(state.simulations_settings@, speed_key(), 1)),
            s.camera.pos_x == 0 && s.camera.pos_y == 0 && s.camera.zoom == 1,
            s.camera.last_move is None,
            !s.paused,
            !s.glider_placed,
    {
        let survival = state.setting_or("cells_to_alive", 1);
        let birth = state.setting_or("cells_to_birth", 3);
        let speed = state.setting_or("simulation_speed", 1);
        Simulation {
            world: World::new(survival, birth),
            camera: Camera::new(),
            paused: false,
            speed_index: speed_index(speed),
            glider_placed: false,
        }
    }

    /// The time between two steps, in milliseconds.
    pub fn tick_interval_ms(&self) -> (ms: u64)
        requires
            self.wf(),
        ensures
            ms == interval_spec(self.speed_index),
    {
        interval_ms(self.speed_index)
    }

    /// Takes the rules and the speed from the settings of `state`; the first
    /// time this finds the world empty, it places a glider.
    pub fn update_from_settings(&mut self, state: &AppState)
        requires
            old(self).wf(),
        ensures
            final(self).wf(),
            final(self).world.survival_rule() == value_or(
                state.simulations_settings@,
                survival_key(),
                1,
            ),
            final(self).world.birth_rule() == value_or(state.simulations_settings@, birth_key(), 3),
            final(self).speed_index == speed_index_spec(
                value_or(state.simulations_settings@, speed_key(), 1),
            ),
            (!old(self).glider_placed && old(self).world@ == Set::<(int, int)>::empty()) ==> (
            final(self).world@ == glider_cells() && final(self).glider_placed),
            !(!old(self).glider_placed && old(self).world@ == Set::<(int, int)>::empty()) ==> (
            final(self).world@ == old(self).world@ && final(self).glider_placed
                == old(self).glider_placed),
            final(self).camera == old(self).camera,
            final(self).paused == old(self).paused,
    {
        let survival = state.setting_or("cells_to_alive", 1);
        let birth = state.setting_or("cells_to_birth", 3);
        let speed = state.setting_or("simulation_speed", 1);
        self.world.set_rules(survival, birth);
        self.speed_index = speed_index(speed);
        if !self.glider_placed && self.world.is_empty() {
            self.world.animate_cell(10, 10);
            self.world.animate_cell(11, 10);
            self.world.animate_cell(12, 10);
            self.world.animate_cell(10, 11);
            self.world.animate_cell(11, 12);
            self.glider_placed = true;
            proof {
                assert(self.world@ =~= glider_cells());
            }
        }
    }

    /// What carrying out `action` does to the simulation `a`, giving `b`,
    /// and to the state `s0`, giving `s1`, with `restart` saying whether the
    /// timer of the steps starts anew.
    pub open spec fn performed(
        a: Simulation,
        b: Simulation,
        s0: AppState,
        s1: AppState,
        action: SimAction,
        restart: bool,
    ) -> bool {
        let moving = action == SimAction::Right || action == SimAction::Left || action
            == SimAction::Up || action == SimAction::Down;
        let (dx, dy) = if action == SimAction::Right {
            (1int, 0int)
        } else if action == SimAction::Left {
            (-1int, 0int)
        } else if action == SimAction::Up {
            (0int, -1int)
        } else {
            (0int, 1int)
        };
        let moved = b.camera.pos_x == saturating_sum(a.camera.pos_x as int, dx) && b.camera.pos_y
            == saturating_sum(a.camera.pos_y as int, dy) && b.camera.zoom == a.camera.zoom
            && b.camera.last_move is Some;
        &&& restart == (action == SimAction::Pause && !b.paused)
        &&& b.paused == (if action == SimAction::Pause {
            !a.paused
        } else {
            a.paused
        })
        &&& b.world@ == (if action == SimAction::Step {
            tick_result(a.world@, a.world.survival_rule(), a.world.birth_rule())
        } else {
            a.world@
        })
        &&& b.world.survival_rule() == a.world.survival_rule()
        &&& b.world.birth_rule() == a.world.birth_rule()
        &&& moving ==> (b.camera == a.camera || moved)
        &&& moving && a.camera.last_move is None ==> moved
        &&& action == SimAction::ZoomIn ==> b.camera.zoom == zoom_in_spec(a.camera.zoom as int)
            && b.camera.pos_x == a.camera.pos_x && b.camera.pos_y == a.camera.pos_y
        &&& action == SimAction::ZoomOut ==> b.camera.zoom == zoom_out_spec(a.camera.zoom as int)
            && b.camera.pos_x == a.camera.pos_x && b.camera.pos_y == a.camera.pos_y
        &&& !(moving || action == SimAction::ZoomIn || action == SimAction::ZoomOut) ==> b.camera
            == a.camera
        &&& b.speed_index == (if action == SimAction::SpeedUp && a.speed_index < 4 {
            a.speed_index + 1
        } else if action == SimAction::SpeedDown && a.speed_index > 0 {
            a.speed_index - 1
        } else {
            a.speed_index as int
        })
        &&& s1.simulations_settings@ == (if b.speed_index != a.speed_index {
            s0.simulations_settings@.insert(speed_key(), speed_of_index_spec(b.speed_index))
        } else {
            s0.simulations_settings@
        })
        &&& s1.key_bindings@ == s0.key_bindings@
        &&& s1.screen == s0.screen
        &&& s1.error_message == s0.error_message
        &&& b.glider_placed == a.glider_placed
    }

    /// Carries out `action`; says whether the timer of the steps starts
    /// anew (when the simulation is resumed).
    pub fn perform(&mut self, state: &mut AppState, action: SimAction) -> (restart: bool)
        requires
            old(self).wf(),
            action == SimAction::Step ==> fits_tick_bounds(old(self).world@),
        ensures
            final(self).wf(),
            Self::performed(*old(self), *final(self), *old(state), *final(state), action, restart),
    {
        match action {
            SimAction::Pause => {
                self.paused = !self.paused;
                !self.paused
            },
            SimAction::Step => {
                self.world.tick();
                false
            },
            SimAction::Right => {
                self.camera.try_move(1, 0);
                false
            },
            SimAction::Left => {
                self.camera.try_move(-1, 0);
                false
            },
            SimAction::Up => {
                self.camera.try_move(0, -1);
                false
            },
            SimAction::Down => {
                self.camera.try_move(0, 1);
                false
            },
            SimAction::ZoomIn => {
                self.camera.zoom_in();
                false
            },
            SimAction::ZoomOut => {
                self.camera.zoom_out();
                false
            },
            SimAction::SpeedUp => {
                if self.speed_index < 4 {
                    self.speed_index += 1;
                    let new_speed = speed_of_index(self.speed_index);
                    state.simulations_settings.insert(owned("simulation_speed"), new_speed);
                }
                false
            },
            SimAction::SpeedDown => {
                if self.speed_index > 0 {
                    self.speed_index -= 1;
                    let new_speed = speed_of_index(self.speed_index);
                    state.simulations_settings.insert(owned("simulation_speed"), new_speed);
                }
                false
            },
        }
    }

    /// Whether `ev` can be handled without overflow.
    pub fn is_input_safe(&self, state: &AppState, ev: &InputEvent) -> (ok: bool)
        requires
            self.wf(),
        ensures
            ok == self.input_safe(*state, *ev),
    {
        let step_ok = match Self::action_of_event(state, ev) {
            Some(SimAction::Step) => self.world.can_tick(),
            _ => true,
        };
        let click_ok = match ev {
            InputEvent::Mouse(m) => match m.kind {
                MouseEventKind::Down(_) => {
                    if self.camera.zoom == 1 {
                        self.camera.pos_x <= i64::MAX - m.column as i64 && self.camera.pos_y
                            <= i64::MAX - m.row as i64
                    } else {
                        self.camera.pos_x < i64::MAX - 2 * (m.column as i64) && self.camera.pos_y
                            <= i64::MAX - 3 - 4 * (m.row as i64)
                    }
                },
                _ => true,
            },
            _ => true,
        };
        step_ok && click_ok
    }

    /// The action bound to the key pressed in `ev`.
    pub fn action_of_event(state: &AppState, ev: &InputEvent) -> (a: Option<SimAction>)
        ensures
            a == pressed_action(*state, *ev),
    {
        match ev {
            InputEvent::Key(key) => {
                if key.kind == KeyEventKind::Press {
                    let key_name = canonical_key_name(key.code);
                    match state.key_bindings.key_of_value(&key_name) {
                        Some(id) => action_of_id(&id),
                        None => None,
                    }
                } else {
                    None
                }
            },
            _ => None,
        }
    }

    /// What handling the input `ev` does to the simulation `a`, giving `b`,
    /// and to the state `s0`, giving `s1`, with `restart` saying whether the
    /// timer of the steps starts anew.
    pub open spec fn input_handled(
        a: Simulation,
        b: Simulation,
        s0: AppState,
        s1: AppState,
        ev: InputEvent,
        restart: bool,
    ) -> bool {
        &&& s1.key_bindings@ == s0.key_bindings@
        &&& s1.screen == s0.screen
        &&& s1.error_message == s0.error_message
        &&& b.world.survival_rule() == a.world.survival_rule()
        &&& b.world.birth_rule() == a.world.birth_rule()
        &&& match ev {
            InputEvent::Key(_) => match pressed_action(s0, ev) {
                Some(action) => Self::performed(a, b, s0, s1, action, restart),
                None => b == a && !restart && s1.simulations_settings@ == s0.simulations_settings@,
            },
            InputEvent::Mouse(m) => {
                &&& b.world@ == (if m.kind == MouseEventKind::Down(MouseButton::Left) {
                    a.world@.union(Self::clicked_cells(a, m.column as int, m.row as int))
                } else if m.kind == MouseEventKind::Down(MouseButton::Right) {
                    a.world@.difference(Self::clicked_cells(a, m.column as int, m.row as int))
                } else {
                    a.world@
                })
                &&& b.camera == a.camera
                &&& b.paused == a.paused
                &&& b.speed_index == a.speed_index
                &&& b.glider_placed == a.glider_placed
                &&& !restart
                &&& s1.simulations_settings@ == s0.simulations_settings@
            },
            _ => b == a && !restart && s1.simulations_settings@ == s0.simulations_settings@,
        }
    }

    /// Handles an event of the simulation screen: a key press carries out
    /// the action bound to the key, a left click makes the cell under the
    /// mouse alive (the 2x4 block under it when zoomed out) and a right
    /// click makes it dead. `terminal_size` is the size of the screen.
    /// Says whether the timer of the steps starts anew.
    pub fn handle_input(
        &mut self,
        state: &mut AppState,
        ev: &InputEvent,
        terminal_size: (u16, u16),
    ) -> (restart: bool)
        requires
            old(self).wf(),
            old(self).input_safe(*old(state), *ev),
        ensures
            final(self).wf(),
            Self::input_handled(*old(self), *final(self), *old(state), *final(state), *ev, restart),
    {
        match ev {
            InputEvent::Key(_) => {
                match Self::action_of_event(state, ev) {
                    Some(action) => self.perform(state, action),
                    None => false,
                }
            },
            InputEvent::Mouse(me) => {
                if let MouseEventKind::Down(btn) = me.kind {
                    let (width, height) = terminal_size;
                    let rect = Rect::new(0, 0, width, height);
                    if self.camera.zoom == 1 {
                        let (world_x, world_y) = self.camera.buffer_to_world(me.column, me.row, rect);
                        match btn {
                            MouseButton::Left => self.world.animate_cell(world_x, world_y),
                            MouseButton::Right => self.world.kill_cell(world_x, world_y),
                            _ => {},
                        }
                        proof {
                            assert(Self::clicked_cells(*old(self), me.column as int, me.row as int)
                                =~= set![(world_x as int, world_y as int)]);
                            assert(old(self).world@.insert((world_x as int, world_y as int))
                                =~= old(self).world@.union(set![(world_x as int, world_y as int)]));
                            assert(old(self).world@.remove((world_x as int, world_y as int))
                                =~= old(self).world@.difference(
                                set![(world_x as int, world_y as int)],
                            ));
                        }
                    } else {
                        let block_x = self.camera.pos_x + (me.column as i64) * 2;
                        let block_y = self.camera.pos_y + (me.row as i64) * 4;
                        match btn {
                            MouseButton::Left => self.world.animate_block(block_x, block_y),
                            MouseButton::Right => self.world.kill_block(block_x, block_y),
                            _ => {},
                        }
                    }
                }
                false
            },
            _ => false,
        }
    }

    /// The cells a click at the screen cell `(column, row)` acts on: the
    /// cell under it at zoom level 1, the 2x4 block under it otherwise.
    pub open spec fn clicked_cells(self, column: int, row: int) -> Set<(int, int)> {
        if self.camera.zoom == 1 {
            set![(self.camera.pos_x + column, self.camera.pos_y + row)]
        } else {
            block_cells(self.camera.pos_x + 2 * column, self.camera.pos_y + 4 * row)
        }
    }
}

/// Whether `ev` asks to quit the program: a press of `q`.
pub fn quit_requested(ev: &InputEvent) -> (quit: bool)
    ensures
        quit == ev.is_press_of(KeyCode::Char('q')),
{
    ev.is_press(KeyCode::Char('q'))
}

impl Simulation {
    /// Whether the world is due for a step, `elapsed_ms` milliseconds after
    /// the last one: on the simulation screen, running, once the time
    /// between steps has passed.
    pub fn due_for_tick(&self, state: &AppState, elapsed_ms: u128) -> (due: bool)
        requires
            self.wf(),
        ensures
            due == (state.screen == Screen::Simulation && !self.paused && elapsed_ms
                >= interval_spec(self.speed_index)),
    {
        state.screen == Screen::Simulation && !self.paused && elapsed_ms
            >= self.tick_interval_ms() as u128
    }

    /// Handles an event of the simulation screen: a press of Esc goes back
    /// to the settings screen; anything else is handled as input. Says
    /// whether the timer of the steps starts anew.
    pub fn handle_screen_event(
        &mut self,
        state: &mut AppState,
        ev: &InputEvent,
        terminal_size: (u16, u16),
    ) -> (restart: bool)
        requires
            old(self).wf(),
            !ev.is_press_of(KeyCode::Esc) ==> old(self).input_safe(*old(state), *ev),
        ensures
            final(self).wf(),
            ev.is_press_of(KeyCode::Esc) ==> final(state).screen == Screen::Settings
                && final(state).key_bindings@ == old(state).key_bindings@
                && final(state).simulations_settings@ == old(state).simulations_settings@
                && final(state).error_message == old(state).error_message && *final(self) == *old(
                self) && !restart,
            !ev.is_press_of(KeyCode::Esc) ==> Self::input_handled(
                *old(self),
                *final(self),
                *old(state),
                *final(state),
                *ev,
                restart,
            ),
    {
        if ev.is_press(KeyCode::Esc) {
            state.screen = Screen::Settings;
            false
        } else {
            self.handle_input(state, ev, terminal_size)
        }
    }
}

/// Going from a speed setting to its position and back gives the setting,
/// and from a position to its setting and back gives the position.
pub proof fn lemma_speed_round_trip(speed: usize, index: usize)
    ensures
        1 <= speed <= 5 ==> speed_of_index_spec(speed_index_spec(speed)) == speed,
        index < SPEED_COUNT ==> speed_index_spec(speed_of_index_spec(index)) == index,
{
}

/// A faster speed has a shorter time between steps.
pub proof fn lemma_faster_is_shorter(i: usize, j: usize)
    requires
        i < j < SPEED_COUNT,
    ensures
        interval_spec(j) < interval_spec(i),
{
}

/// Carrying out an action keeps the speed among the speeds, moves it by at
/// most one place, and, when it moves, stores the speed setting of the new
/// place and makes the time between steps that of the new place.
pub proof fn lemma_speed_step(
    a: Simulation,
    b: Simulation,
    s0: AppState,
    s1: AppState,
    action: SimAction,
    restart: bool,
)
    requires
        a.wf(),
        Simulation::performed(a, b, s0, s1, action, restart),
    ensures
        b.speed_index < SPEED_COUNT,
        -1 <= b.speed_index - a.speed_index <= 1,
        b.speed_index != a.speed_index ==> s1.simulations_settings@.contains_key(speed_key())
            && s1.simulations_settings@[speed_key()] == speed_of_index_spec(b.speed_index)
            && speed_index_spec(s1.simulations_settings@[speed_key()]) == b.speed_index,
{
}

/// At zoom level 1 a click acts on the world cell under the clicked screen
/// cell, as the camera maps the whole terminal; in particular a click on
/// the `#` drawn for a live cell acts on that cell.
pub proof fn lemma_click_hits_drawn_cell(
    sim: Simulation,
    rect: Rect,
    column: int,
    row: int,
    x: int,
    y: int,
)
    requires
        sim.camera.zoom == 1,
        rect.x == 0,
        rect.y == 0,
        rect.wf(),
    ensures
        Simulation::clicked_cells(sim, column, row) == set![
            buffer_to_world_spec(sim.camera.pos_x as int, sim.camera.pos_y as int, column, row, rect),
        ],
        shown_normal(sim.world@, sim.camera.pos_x as int, sim.camera.pos_y as int, rect, x, y)
            && normal_glyph(sim.camera.pos_x as int, sim.camera.pos_y as int, rect, x, y).x == column
            && normal_glyph(sim.camera.pos_x as int, sim.camera.pos_y as int, rect, x, y).y == row
            ==> Simulation::clicked_cells(sim, column, row) == set![(x, y)],
{
    let px = sim.camera.pos_x as int;
    let py = sim.camera.pos_y as int;
    if shown_normal(sim.world@, px, py, rect, x, y) {
        lemma_buffer_round_trip(px, py, x, y, rect);
    }
}

/// Every bindable action id names its action.
pub proof fn lemma_action_ids()
    ensures
        action_of_id_spec("pause"@) == Some(SimAction::Pause),
        action_of_id_spec("step"@) == Some(SimAction::Step),
        action_of_id_spec("right"@) == Some(SimAction::Right),
        action_of_id_spec("left"@) == Some(SimAction::Left),
        action_of_id_spec("up"@) == Some(SimAction::Up),
        action_of_id_spec("down"@) == Some(SimAction::Down),
        action_of_id_spec("zoom_in"@) == Some(SimAction::ZoomIn),
        action_of_id_spec("zoom_out"@) == Some(SimAction::ZoomOut),
        action_of_id_spec("speed_up"@) == Some(SimAction::SpeedUp),
        action_of_id_spec("speed_down"@) == Some(SimAction::SpeedDown),
{
    reveal_strlit("pause");
    reveal_strlit("step");
    reveal_strlit("right");
    reveal_strlit("left");
    reveal_strlit("up");
    reveal_strlit("down");
    reveal_strlit("zoom_in");
    reveal_strlit("zoom_out");
    reveal_strlit("speed_up");
    reveal_strlit("speed_down");
    assert("pause"@.len() == 5 && "pause"@[0] == 'p');
    assert("step"@.len() == 4 && "step"@[0] == 's');
    assert("right"@.len() == 5 && "right"@[0] == 'r');
    assert("left"@.len() == 4 && "left"@[0] == 'l');
    assert("up"@.len() == 2 && "up"@[0] == 'u');
    assert("down"@.len() == 4 && "down"@[0] == 'd');
    assert("zoom_in"@.len() == 7 && "zoom_in"@[0] == 'z');
    assert("zoom_out"@.len() == 8 && "zoom_out"@[0] == 'z');
    assert("speed_up"@.len() == 8 && "speed_up"@[0] == 's');
    assert("speed_down"@.len() == 10 && "speed_down"@[0] == 's');
}

/// The move actions go the way their ids say: carrying out the action named
/// `up`, `down`, `left` or `right` on a camera that has not moved yet moves
/// it one cell up (a smaller row), down, left (a smaller column) or right,
/// and keeps the zoom.
pub proof fn lemma_named_moves(
    a: Simulation,
    b: Simulation,
    s0: AppState,
    s1: AppState,
    id: Seq<char>,
    action: SimAction,
    restart: bool,
)
    requires
        a.camera.last_move is None,
        id == "up"@ || id == "down"@ || id == "left"@ || id == "right"@,
        action_of_id_spec(id) == Some(action),
        Simulation::performed(a, b, s0, s1, action, restart),
    ensures
        b.camera.zoom == a.camera.zoom,
        id == "up"@ ==> b.camera.pos_x == a.camera.pos_x && b.camera.pos_y == saturating_sum(
            a.camera.pos_y as int,
            -1,
        ),
        id == "down"@ ==> b.camera.pos_x == a.camera.pos_x && b.camera.pos_y == saturating_sum(
            a.camera.pos_y as int,
            1,
        ),
        id == "left"@ ==> b.camera.pos_y == a.camera.pos_y && b.camera.pos_x == saturating_sum(
            a.camera.pos_x as int,
            -1,
        ),
        id == "right"@ ==> b.camera.pos_y == a.camera.pos_y && b.camera.pos_x == saturating_sum(
            a.camera.pos_x as int,
            1,
        ),
{
    lemma_action_ids();
    reveal_strlit("up");
    reveal_strlit("down");
    reveal_strlit("left");
    reveal_strlit("right");
}

} // verus!
