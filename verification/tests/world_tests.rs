use life_tui::camera::{Camera, Rect};
use life_tui::world::{Glyph, World};

fn alive_set(w: &World, xs: std::ops::Range<i64>, ys: std::ops::Range<i64>) -> Vec<(i64, i64)> {
    let mut out = Vec::new();
    for y in ys.clone() {
        for x in xs.clone() {
            if w.is_cell_alive(x, y) {
                out.push((x, y));
            }
        }
    }
    out
}

#[test]
fn new_world_is_empty() {
    let w = World::new(2, 3);
    assert!(w.is_empty());
    assert!(!w.is_cell_alive(0, 0));
    assert!(!w.is_cell_alive(-5, 17));
}

#[test]
fn animate_then_kill_leaves_world_empty() {
    let mut w = World::new(2, 3);
    w.animate_cell(5, -7);
    assert!(w.is_cell_alive(5, -7));
    assert!(!w.is_empty());
    w.kill_cell(5, -7);
    assert!(!w.is_cell_alive(5, -7));
    // the chunk left without live cells is dropped
    assert!(w.is_empty());
}

#[test]
fn kill_keeps_other_cells_of_the_chunk() {
    let mut w = World::new(2, 3);
    w.animate_cell(1, 1);
    w.animate_cell(2, 1);
    w.kill_cell(1, 1);
    assert!(!w.is_cell_alive(1, 1));
    assert!(w.is_cell_alive(2, 1));
    assert!(!w.is_empty());
}

#[test]
fn kill_of_dead_cell_changes_nothing() {
    let mut w = World::new(2, 3);
    w.animate_cell(0, 0);
    w.kill_cell(100, 100);
    assert_eq!(alive_set(&w, -2..3, -2..3), vec![(0, 0)]);
}

#[test]
fn extreme_cells_are_stored() {
    let mut w = World::new(2, 3);
    w.animate_cell(i64::MAX, i64::MIN);
    w.animate_cell(i64::MIN, i64::MAX);
    assert!(w.is_cell_alive(i64::MAX, i64::MIN));
    assert!(w.is_cell_alive(i64::MIN, i64::MAX));
    assert!(!w.is_cell_alive(i64::MAX, i64::MAX));
    // far from the edges a step is safe; next to them it is not
    assert!(!w.can_tick());
}

#[test]
fn blinker_oscillates_with_conway_rules() {
    let mut w = World::new(2, 3);
    w.animate_cell(0, 0);
    w.animate_cell(1, 0);
    w.animate_cell(2, 0);
    assert!(w.can_tick());
    w.tick();
    assert_eq!(alive_set(&w, -3..5, -3..5), vec![(1, -1), (1, 0), (1, 1)]);
    w.tick();
    assert_eq!(alive_set(&w, -3..5, -3..5), vec![(0, 0), (1, 0), (2, 0)]);
}

#[test]
fn blinker_across_chunk_borders() {
    let mut w = World::new(2, 3);
    w.animate_cell(31, 0);
    w.animate_cell(32, 0);
    w.animate_cell(33, 0);
    w.tick();
    assert_eq!(alive_set(&w, 28..36, -3..4), vec![(32, -1), (32, 0), (32, 1)]);
    let mut v = World::new(2, 3);
    v.animate_cell(-1, 5);
    v.animate_cell(0, 5);
    v.animate_cell(1, 5);
    v.tick();
    assert_eq!(alive_set(&v, -4..4, 2..9), vec![(0, 4), (0, 5), (0, 6)]);
}

#[test]
fn single_cell_dies() {
    let mut w = World::new(2, 3);
    w.animate_cell(7, 7);
    w.tick();
    assert!(w.is_empty());
}

#[test]
fn empty_world_stays_empty() {
    let mut w = World::new(1, 3);
    w.tick();
    assert!(w.is_empty());
}

#[test]
fn default_rules_keep_a_pair() {
    // survival with 1 neighbour, birth with 3
    let mut w = World::new(1, 3);
    w.animate_cell(0, 0);
    w.animate_cell(1, 0);
    w.tick();
    assert_eq!(alive_set(&w, -3..4, -3..4), vec![(0, 0), (1, 0)]);
}

#[test]
fn survival_also_with_birth_count() {
    // a live cell with `birth` neighbours stays alive even when survival differs
    let mut w = World::new(7, 3);
    w.animate_cell(0, 0);
    w.animate_cell(1, 0);
    w.animate_cell(0, 1);
    w.animate_cell(1, 1);
    w.tick();
    assert_eq!(alive_set(&w, -2..4, -2..4), vec![(0, 0), (1, 0), (0, 1), (1, 1)]);
}

#[test]
fn set_rules_keeps_cells() {
    let mut w = World::new(2, 3);
    w.animate_cell(3, 3);
    w.set_rules(1, 1);
    assert!(w.is_cell_alive(3, 3));
    w.tick();
    // with birth 1 every neighbour of the lone cell is born; the cell itself dies
    let cells = alive_set(&w, 0..7, 0..7);
    assert_eq!(cells.len(), 8);
    assert!(!w.is_cell_alive(3, 3));
}

#[test]
fn block_animate_and_kill() {
    let mut w = World::new(2, 3);
    w.animate_block(30, 30);
    let cells = alive_set(&w, 28..34, 28..36);
    assert_eq!(cells.len(), 8);
    for x in 30..32 {
        for y in 30..34 {
            assert!(w.is_cell_alive(x, y));
        }
    }
    w.kill_block(30, 30);
    assert!(w.is_empty());
}

#[test]
fn draw_normal_shows_cells_in_view() {
    let mut w = World::new(2, 3);
    w.animate_cell(1, 2);
    w.animate_cell(20, 1);
    w.animate_cell(-1, 0);
    let rect = Rect::new(0, 0, 10, 5);
    let cam = Camera::new();
    let out = w.draw(rect, &cam);
    assert_eq!(out, vec![Glyph { x: 1, y: 2, ch: '#' }]);
}

#[test]
fn draw_normal_with_offset_area_and_camera() {
    let mut w = World::new(2, 3);
    w.animate_cell(5, 5);
    w.animate_cell(6, 7);
    let rect = Rect::new(3, 1, 10, 10);
    let mut cam = Camera::new();
    cam.pos_x = 4;
    cam.pos_y = 4;
    let mut out = w.draw(rect, &cam);
    out.sort_by_key(|g| (g.x, g.y));
    assert_eq!(
        out,
        vec![Glyph { x: 4, y: 2, ch: '#' }, Glyph { x: 5, y: 4, ch: '#' }]
    );
}

#[test]
fn draw_braille_when_zoomed_out() {
    let mut w = World::new(2, 3);
    w.animate_cell(0, 0);
    w.animate_cell(1, 3);
    w.animate_cell(2, 1);
    let rect = Rect::new(0, 0, 3, 1);
    let mut cam = Camera::new();
    cam.zoom = 2;
    let out = w.draw(rect, &cam);
    assert_eq!(
        out,
        vec![
            Glyph { x: 0, y: 0, ch: '\u{2881}' },
            Glyph { x: 1, y: 0, ch: '\u{2802}' },
            Glyph { x: 2, y: 0, ch: ' ' },
        ]
    );
}

#[test]
fn draw_on_an_area_reaching_the_last_column() {
    let mut w = World::new(2, 3);
    w.animate_cell(5, 0);
    let rect = Rect { x: 65530, y: 0, width: 6, height: 1 };
    let out = w.draw(rect, &Camera::new());
    assert_eq!(out, vec![Glyph { x: 65535, y: 0, ch: '#' }]);
}
