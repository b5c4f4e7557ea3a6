use life_tui::input::{
    InputEvent, KeyCode, KeyEvent, KeyEventKind, MouseButton, MouseEvent, MouseEventKind, CONTROL,
};
use life_tui::terminal::camera::Camera;
use life_tui::terminal::control::{control_action, echo_stops, ControlAction};
use life_tui::terminal::world::World;

fn key(code: KeyCode, kind: KeyEventKind) -> InputEvent {
    InputEvent::Key(KeyEvent { code, kind, modifiers: 0 })
}

fn mouse(kind: MouseEventKind, column: u16, row: u16, modifiers: u8) -> InputEvent {
    InputEvent::Mouse(MouseEvent { kind, column, row, modifiers })
}

fn alive(w: &World, xs: std::ops::Range<i64>, ys: std::ops::Range<i64>) -> Vec<(i64, i64)> {
    let mut out = Vec::new();
    for y in ys.clone() {
        for x in xs.clone() {
            if w.is_cell_alive(x, y) {
                out.push((x, y));
            }
        }
    }
    out
}

#[test]
fn camera_maps_screen_and_world() {
    let mut c = Camera::new(80, 24);
    assert_eq!((c.pos_x, c.pos_y, c.zoom, c.term_width, c.term_height), (0, 0, 1, 80, 24));
    c.pos_x = 10;
    c.pos_y = -5;
    assert_eq!(c.screen_to_world(3, 4), (13, -1));
    assert_eq!(c.world_to_screen(13, -1), (3, 4));
    // offsets are cut to 16 bits
    assert_eq!(c.world_to_screen(9, -5), (65535, 0));
}

#[test]
fn cells_at_negative_positions_are_not_animated() {
    let mut w = World::new();
    w.animate_cell(-1, 3);
    w.animate_cell(3, -1);
    assert!(!w.is_cell_alive(-1, 3));
    assert!(!w.is_cell_alive(3, -1));
    w.animate_cell(3, 3);
    assert!(w.is_cell_alive(3, 3));
    w.kill_cell(3, 3);
    assert!(!w.is_cell_alive(3, 3));
}

#[test]
fn step_with_fixed_rules() {
    // survival with 4 neighbours, birth with 2
    let mut w = World::new();
    w.animate_cell(5, 5);
    w.animate_cell(6, 5);
    w.tick();
    assert_eq!(alive(&w, 0..12, 0..12), vec![(5, 4), (6, 4), (5, 6), (6, 6)]);
}

#[test]
fn step_across_truncated_chunks() {
    let mut w = World::new();
    w.animate_cell(31, 0);
    w.animate_cell(32, 0);
    w.tick();
    assert_eq!(alive(&w, 28..36, 0..4), vec![(31, 1), (32, 1)]);
}

#[test]
fn lone_cell_dies() {
    let mut w = World::new();
    w.animate_cell(0, 0);
    w.tick();
    assert!(alive(&w, -3..4, -3..4).is_empty());
}

#[test]
fn draw_lists_cells_in_view() {
    let mut w = World::new();
    w.animate_cell(1, 2);
    w.animate_cell(40, 2);
    w.animate_cell(9, 9);
    let cam = Camera::new(10, 10);
    let mut out = w.draw(cam);
    out.sort();
    assert_eq!(out, vec![(1, 2), (9, 9)]);
    let mut moved = Camera::new(10, 10);
    moved.pos_x = 35;
    assert_eq!(w.draw(moved), vec![(5, 2)]);
}

#[test]
fn lazy_draw_sets_and_clears() {
    let mut w = World::new();
    let mut cam = Camera::new(10, 10);
    cam.pos_x = 2;
    assert_eq!(w.lazy_draw(cam, 5, 1, true), (3, 1, '#'));
    assert!(w.is_cell_alive(5, 1));
    assert_eq!(w.lazy_draw(cam, 5, 1, false), (3, 1, ' '));
    assert!(!w.is_cell_alive(5, 1));
    // painting reaches negative positions too
    w.lazy_draw(cam, -3, 0, true);
    assert!(w.is_cell_alive(-3, 0));
}

#[test]
fn control_decisions() {
    assert_eq!(control_action(&key(KeyCode::Char('q'), KeyEventKind::Press)), ControlAction::Quit);
    assert_eq!(control_action(&key(KeyCode::Char('Q'), KeyEventKind::Release)), ControlAction::Quit);
    assert_eq!(control_action(&key(KeyCode::Esc, KeyEventKind::Press)), ControlAction::Quit);
    assert_eq!(control_action(&key(KeyCode::Char('a'), KeyEventKind::Press)), ControlAction::Ignore);
    assert_eq!(
        control_action(&mouse(MouseEventKind::Down(MouseButton::Left), 4, 7, 0)),
        ControlAction::Paint { column: 4, row: 7, ch: '#' }
    );
    assert_eq!(
        control_action(&mouse(MouseEventKind::Down(MouseButton::Right), 4, 7, 0)),
        ControlAction::Paint { column: 4, row: 7, ch: ' ' }
    );
    assert_eq!(
        control_action(&mouse(MouseEventKind::Drag(MouseButton::Left), 1, 1, 0)),
        ControlAction::Paint { column: 1, row: 1, ch: '#' }
    );
    assert_eq!(
        control_action(&mouse(MouseEventKind::Drag(MouseButton::Left), 1, 1, CONTROL)),
        ControlAction::Ignore
    );
    assert_eq!(
        control_action(&mouse(MouseEventKind::Drag(MouseButton::Right), 2, 3, CONTROL)),
        ControlAction::Paint { column: 2, row: 3, ch: ' ' }
    );
    assert_eq!(control_action(&mouse(MouseEventKind::Moved, 2, 3, 0)), ControlAction::Ignore);
    assert_eq!(control_action(&InputEvent::Resize(10, 10)), ControlAction::Ignore);
}

#[test]
fn echo_stops_at_esc() {
    assert!(echo_stops(&key(KeyCode::Esc, KeyEventKind::Press)));
    assert!(echo_stops(&key(KeyCode::Esc, KeyEventKind::Release)));
    assert!(!echo_stops(&key(KeyCode::Enter, KeyEventKind::Press)));
    assert!(!echo_stops(&InputEvent::FocusLost));
}

#[test]
fn step_next_to_the_edge_with_negative_neighbours() {
    // painted cells may sit at negative positions; their negative
    // neighbours are never checked, so a cell at the right edge of the grid
    // with only negative neighbours below row zero just dies
    let mut w = World::new();
    let cam = Camera::new(10, 10);
    w.lazy_draw(cam, i64::MAX - 1, -5, true);
    assert!(w.is_cell_alive(i64::MAX - 1, -5));
    w.tick();
    assert!(!w.is_cell_alive(i64::MAX - 1, -5));
}
