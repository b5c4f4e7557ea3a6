use life_tui::camera::{Camera, Rect};
use std::time::Instant;

#[test]
fn new_camera_at_origin() {
    let c = Camera::new();
    assert_eq!((c.pos_x, c.pos_y, c.zoom), (0, 0, 1));
    assert!(c.last_move.is_none());
}

#[test]
fn rect_new_clamps_to_u16() {
    let r = Rect::new(10, 20, 30, 40);
    assert_eq!((r.x, r.y, r.width, r.height), (10, 20, 30, 40));
    let r = Rect::new(65530, 65000, 100, 1000);
    assert_eq!((r.x, r.y, r.width, r.height), (65530, 65000, 5, 535));
}

#[test]
fn world_to_buffer_inside_and_outside() {
    let c = Camera::new();
    let rect = Rect::new(2, 3, 10, 10);
    assert_eq!(c.world_to_buffer(4, 5, rect), Some((6, 8)));
    assert_eq!(c.world_to_buffer(0, 0, rect), Some((2, 3)));
    assert_eq!(c.world_to_buffer(9, 9, rect), Some((11, 12)));
    assert_eq!(c.world_to_buffer(10, 0, rect), None);
    assert_eq!(c.world_to_buffer(-1, 0, rect), None);
    assert_eq!(c.world_to_buffer(0, -1, rect), None);
}

#[test]
fn world_to_buffer_cuts_offsets_to_16_bits() {
    let c = Camera::new();
    let rect = Rect::new(2, 3, 10, 10);
    // 65541 cut to 16 bits is 5
    assert_eq!(c.world_to_buffer(65541, 0, rect), Some((7, 3)));
}

#[test]
fn buffer_to_world_inverts_world_to_buffer() {
    let mut c = Camera::new();
    c.pos_x = -100;
    c.pos_y = 50;
    let rect = Rect::new(2, 3, 10, 10);
    assert_eq!(c.buffer_to_world(6, 8, rect), (-96, 55));
    assert_eq!(c.world_to_buffer(-96, 55, rect), Some((6, 8)));
    // a screen cell left of the area maps to a cell left of the camera
    assert_eq!(c.buffer_to_world(0, 0, rect), (-102, 47));
}

#[test]
fn first_move_always_happens() {
    let mut c = Camera::new();
    assert!(c.try_move(1, 0));
    assert_eq!((c.pos_x, c.pos_y), (1, 0));
    assert!(c.last_move.is_some());
}

#[test]
fn move_at_respects_pause() {
    let now = Instant::now();
    let mut c = Camera::new();
    assert!(c.move_at(0, -1, now, None));
    assert_eq!((c.pos_x, c.pos_y), (0, -1));
    assert!(!c.move_at(5, 5, now, Some(49)));
    assert_eq!((c.pos_x, c.pos_y), (0, -1));
    assert!(c.move_at(5, 5, now, Some(50)));
    assert_eq!((c.pos_x, c.pos_y), (5, 4));
}

#[test]
fn move_saturates_at_the_edges() {
    let now = Instant::now();
    let mut c = Camera::new();
    c.pos_x = i64::MAX;
    c.pos_y = i64::MIN;
    assert!(c.move_at(1, -1, now, None));
    assert_eq!((c.pos_x, c.pos_y), (i64::MAX, i64::MIN));
}

#[test]
fn zoom_stays_between_one_and_four() {
    let mut c = Camera::new();
    for _ in 0..6 {
        c.zoom_in();
    }
    assert_eq!(c.zoom, 4);
    c.zoom_out();
    assert_eq!(c.zoom, 3);
    c.zoom_in();
    assert_eq!(c.zoom, 4);
    for _ in 0..6 {
        c.zoom_out();
    }
    assert_eq!(c.zoom, 1);
}
