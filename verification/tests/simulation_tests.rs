use life_tui::input::{
    InputEvent, KeyCode, KeyEvent, KeyEventKind, MouseButton, MouseEvent, MouseEventKind,
};
use life_tui::settings::{default_key_bindings, AppState, Screen};
use life_tui::simulation::{
    action_of_id, interval_ms, quit_requested, speed_index, speed_of_index, SimAction, Simulation,
};

fn press(code: KeyCode) -> InputEvent {
    InputEvent::Key(KeyEvent { code, kind: KeyEventKind::Press, modifiers: 0 })
}

fn click(kind: MouseEventKind, column: u16, row: u16) -> InputEvent {
    InputEvent::Mouse(MouseEvent { kind, column, row, modifiers: 0 })
}

fn state_with_defaults() -> AppState {
    let mut s = AppState::new();
    s.key_bindings = default_key_bindings();
    s
}

#[test]
fn speed_table() {
    assert_eq!(
        (1..=5).map(speed_index).collect::<Vec<_>>(),
        vec![2, 3, 4, 1, 0]
    );
    assert_eq!(speed_index(0), 2);
    assert_eq!(speed_index(9), 2);
    assert_eq!((0..5).map(speed_of_index).collect::<Vec<_>>(), vec![5, 4, 1, 2, 3]);
    assert_eq!(speed_of_index(7), 1);
    assert_eq!((0..5).map(interval_ms).collect::<Vec<_>>(), vec![2000, 1000, 500, 250, 125]);
    for speed in 1..=5 {
        assert_eq!(speed_of_index(speed_index(speed)), speed);
    }
}

#[test]
fn action_names() {
    assert_eq!(action_of_id(&"pause".to_string()), Some(SimAction::Pause));
    assert_eq!(action_of_id(&"step".to_string()), Some(SimAction::Step));
    assert_eq!(action_of_id(&"zoom_out".to_string()), Some(SimAction::ZoomOut));
    assert_eq!(action_of_id(&"speed_down".to_string()), Some(SimAction::SpeedDown));
    assert_eq!(action_of_id(&"jump".to_string()), None);
}

#[test]
fn new_simulation_from_settings() {
    let mut s = AppState::new();
    let sim = Simulation::new(&s);
    assert_eq!(sim.speed_index, 2);
    assert_eq!(sim.tick_interval_ms(), 500);
    assert!(!sim.paused);
    assert!(sim.world.is_empty());
    s.simulations_settings.insert("simulation_speed".to_string(), 5);
    let sim = Simulation::new(&s);
    assert_eq!(sim.tick_interval_ms(), 2000);
}

#[test]
fn update_places_glider_once() {
    let s = AppState::new();
    let mut sim = Simulation::new(&s);
    sim.update_from_settings(&s);
    assert!(sim.glider_placed);
    for &(x, y) in &[(10, 10), (11, 10), (12, 10), (10, 11), (11, 12)] {
        assert!(sim.world.is_cell_alive(x, y));
    }
    sim.world.kill_cell(10, 10);
    sim.world.kill_cell(11, 10);
    sim.world.kill_cell(12, 10);
    sim.world.kill_cell(10, 11);
    sim.world.kill_cell(11, 12);
    sim.update_from_settings(&s);
    assert!(sim.world.is_empty());
}

#[test]
fn update_takes_speed_and_rules() {
    let mut s = AppState::new();
    let mut sim = Simulation::new(&s);
    s.simulations_settings.insert("simulation_speed".to_string(), 3);
    s.simulations_settings.insert("cells_to_alive".to_string(), 2);
    sim.update_from_settings(&s);
    assert_eq!(sim.tick_interval_ms(), 125);
    // with survival 2 and birth 3 the glider moves one cell up and left
    // after four steps
    for _ in 0..4 {
        sim.world.tick();
    }
    for &(x, y) in &[(10, 10), (11, 10), (12, 10), (10, 11), (11, 12)] {
        assert!(sim.world.is_cell_alive(x - 1, y - 1));
    }
}

#[test]
fn keys_perform_bound_actions() {
    let mut s = state_with_defaults();
    let mut sim = Simulation::new(&s);
    assert!(!sim.handle_input(&mut s, &press(KeyCode::Char(' ')), (80, 24)));
    assert!(sim.paused);
    assert!(sim.handle_input(&mut s, &press(KeyCode::Char(' ')), (80, 24)));
    assert!(!sim.paused);
    sim.handle_input(&mut s, &press(KeyCode::Char('+')), (80, 24));
    assert_eq!(sim.camera.zoom, 2);
    sim.handle_input(&mut s, &press(KeyCode::Char('-')), (80, 24));
    assert_eq!(sim.camera.zoom, 1);
    sim.handle_input(&mut s, &press(KeyCode::Right), (80, 24));
    assert_eq!(sim.camera.pos_x, 1);
}

#[test]
fn russian_layout_keys_act_like_latin() {
    let mut s = state_with_defaults();
    let mut sim = Simulation::new(&s);
    // 'д' sits where 'L' is: speed up
    sim.handle_input(&mut s, &press(KeyCode::Char('д')), (80, 24));
    assert_eq!(sim.speed_index, 3);
    assert_eq!(s.setting_or("simulation_speed", 0), 2);
    // 'о' sits where 'J' is: speed down
    sim.handle_input(&mut s, &press(KeyCode::Char('о')), (80, 24));
    sim.handle_input(&mut s, &press(KeyCode::Char('о')), (80, 24));
    assert_eq!(sim.speed_index, 1);
    assert_eq!(s.setting_or("simulation_speed", 0), 4);
}

#[test]
fn speed_stops_at_the_ends() {
    let mut s = state_with_defaults();
    let mut sim = Simulation::new(&s);
    for _ in 0..6 {
        sim.perform(&mut s, SimAction::SpeedUp);
    }
    assert_eq!(sim.speed_index, 4);
    assert_eq!(sim.tick_interval_ms(), 125);
    for _ in 0..6 {
        sim.perform(&mut s, SimAction::SpeedDown);
    }
    assert_eq!(sim.speed_index, 0);
    assert_eq!(s.setting_or("simulation_speed", 0), 5);
}

#[test]
fn step_key_advances_world() {
    let mut s = state_with_defaults();
    let mut sim = Simulation::new(&s);
    sim.world.set_rules(2, 3);
    sim.world.animate_cell(0, 0);
    sim.world.animate_cell(1, 0);
    sim.world.animate_cell(2, 0);
    assert!(sim.is_input_safe(&s, &press(KeyCode::Char('t'))));
    sim.handle_input(&mut s, &press(KeyCode::Char('t')), (80, 24));
    assert!(sim.world.is_cell_alive(1, -1));
    assert!(sim.world.is_cell_alive(1, 1));
    assert!(!sim.world.is_cell_alive(0, 0));
}

#[test]
fn unbound_key_and_release_do_nothing() {
    let mut s = state_with_defaults();
    let mut sim = Simulation::new(&s);
    assert!(!sim.handle_input(&mut s, &press(KeyCode::Char('x')), (80, 24)));
    let release = InputEvent::Key(KeyEvent {
        code: KeyCode::Char(' '),
        kind: KeyEventKind::Release,
        modifiers: 0,
    });
    sim.handle_input(&mut s, &release, (80, 24));
    assert!(!sim.paused);
    assert_eq!(sim.camera.pos_x, 0);
}

#[test]
fn clicks_set_cells() {
    let mut s = state_with_defaults();
    let mut sim = Simulation::new(&s);
    sim.handle_input(&mut s, &click(MouseEventKind::Down(MouseButton::Left), 4, 6), (80, 24));
    assert!(sim.world.is_cell_alive(4, 6));
    sim.handle_input(&mut s, &click(MouseEventKind::Down(MouseButton::Middle), 5, 6), (80, 24));
    assert!(!sim.world.is_cell_alive(5, 6));
    sim.handle_input(&mut s, &click(MouseEventKind::Down(MouseButton::Right), 4, 6), (80, 24));
    assert!(sim.world.is_empty());
}

#[test]
fn clicks_when_zoomed_out_set_blocks() {
    let mut s = state_with_defaults();
    let mut sim = Simulation::new(&s);
    sim.camera.zoom = 3;
    sim.handle_input(&mut s, &click(MouseEventKind::Down(MouseButton::Left), 1, 1), (80, 24));
    for x in 2..4 {
        for y in 4..8 {
            assert!(sim.world.is_cell_alive(x, y));
        }
    }
    assert!(!sim.world.is_cell_alive(1, 4));
    sim.handle_input(&mut s, &click(MouseEventKind::Down(MouseButton::Right), 1, 1), (80, 24));
    assert!(sim.world.is_empty());
}

#[test]
fn unsafe_inputs_are_reported() {
    let s = state_with_defaults();
    let mut sim = Simulation::new(&s);
    sim.camera.pos_x = i64::MAX;
    assert!(!sim.is_input_safe(&s, &click(MouseEventKind::Down(MouseButton::Left), 1, 0)));
    assert!(sim.is_input_safe(&s, &click(MouseEventKind::Down(MouseButton::Left), 0, 0)));
    assert!(sim.is_input_safe(&s, &click(MouseEventKind::Moved, 9, 0)));
    sim.world.animate_cell(i64::MAX, 0);
    assert!(!sim.is_input_safe(&s, &press(KeyCode::Char('t'))));
    assert!(sim.is_input_safe(&s, &press(KeyCode::Char(' '))));
}

#[test]
fn due_for_tick_only_when_running_on_simulation_screen() {
    let mut s = state_with_defaults();
    let mut sim = Simulation::new(&s);
    assert!(!sim.due_for_tick(&s, 10_000));
    s.screen = Screen::Simulation;
    assert!(!sim.due_for_tick(&s, 499));
    assert!(sim.due_for_tick(&s, 500));
    sim.paused = true;
    assert!(!sim.due_for_tick(&s, 10_000));
}

#[test]
fn esc_returns_to_settings() {
    let mut s = state_with_defaults();
    s.screen = Screen::Simulation;
    let mut sim = Simulation::new(&s);
    assert!(!sim.handle_screen_event(&mut s, &press(KeyCode::Esc), (80, 24)));
    assert_eq!(s.screen, Screen::Settings);
    s.screen = Screen::Simulation;
    sim.handle_screen_event(&mut s, &press(KeyCode::Char(' ')), (80, 24));
    assert!(sim.paused);
    assert_eq!(s.screen, Screen::Simulation);
}

#[test]
fn quit_on_q_press() {
    assert!(quit_requested(&press(KeyCode::Char('q'))));
    assert!(!quit_requested(&press(KeyCode::Char('Q'))));
    let release = InputEvent::Key(KeyEvent {
        code: KeyCode::Char('q'),
        kind: KeyEventKind::Release,
        modifiers: 0,
    });
    assert!(!quit_requested(&release));
    assert!(!quit_requested(&InputEvent::FocusGained));
}
