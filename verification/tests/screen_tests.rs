use life_tui::input::{InputEvent, KeyCode, KeyEvent, KeyEventKind};
use life_tui::settings::{AppState, Screen};
use life_tui::settings_screen::{build_settings_root, SettingsOutcome, SettingsScreen};
use life_tui::widgets::Component;

fn press(code: KeyCode) -> InputEvent {
    InputEvent::Key(KeyEvent { code, kind: KeyEventKind::Press, modifiers: 0 })
}

fn send(screen: &mut SettingsScreen, state: &mut AppState, code: KeyCode) -> SettingsOutcome {
    let ev = press(code);
    assert!(screen.can_handle(&ev));
    screen.handle_event(&ev, state)
}

#[test]
fn tree_has_three_columns() {
    let s = AppState::new();
    let root = build_settings_root(&s);
    match &root {
        Component::Container(c) => {
            assert_eq!(c.children.len(), 3);
            match &c.children[1] {
                Component::Container(col2) => {
                    assert_eq!(col2.children.len(), 10);
                    match &col2.children[9] {
                        Component::KeybindInput(k) => assert_eq!(k.action_id, "step"),
                        _ => panic!("a key-binding field was expected"),
                    }
                }
                _ => panic!("a column was expected"),
            }
            match &c.children[0] {
                Component::Container(col1) => {
                    assert_eq!(col1.title, "мир");
                    assert_eq!(col1.children.len(), 3);
                }
                _ => panic!("a column was expected"),
            }
        }
        _ => panic!("a container was expected"),
    }
    assert_eq!(root.get_children_count(), 3);
}

#[test]
fn new_screen_focuses_first_widget() {
    let s = AppState::new();
    let screen = SettingsScreen::new(&s);
    assert_eq!(screen.focus_stack, vec![0, 0]);
}

#[test]
fn arrows_move_focus_with_wrap_around() {
    let mut s = AppState::new();
    let mut screen = SettingsScreen::new(&s);
    // the first column has three focusable groups
    assert_eq!(send(&mut screen, &mut s, KeyCode::Down), SettingsOutcome::Stay);
    assert_eq!(screen.focus_stack, vec![0, 1]);
    send(&mut screen, &mut s, KeyCode::Right);
    assert_eq!(screen.focus_stack, vec![0, 2]);
    send(&mut screen, &mut s, KeyCode::Down);
    assert_eq!(screen.focus_stack, vec![0, 0]);
    send(&mut screen, &mut s, KeyCode::Up);
    assert_eq!(screen.focus_stack, vec![0, 2]);
    send(&mut screen, &mut s, KeyCode::Left);
    assert_eq!(screen.focus_stack, vec![0, 1]);
}

#[test]
fn enter_then_esc_restores_focus() {
    let mut s = AppState::new();
    let mut screen = SettingsScreen::new(&s);
    send(&mut screen, &mut s, KeyCode::Enter);
    assert_eq!(screen.focus_stack, vec![0, 0, 0]);
    assert_eq!(send(&mut screen, &mut s, KeyCode::Esc), SettingsOutcome::Stay);
    assert_eq!(screen.focus_stack, vec![0, 0]);
    assert_eq!(s.screen, Screen::Settings);
}

#[test]
fn esc_at_top_enters_simulation() {
    let mut s = AppState::new();
    let mut screen = SettingsScreen::new(&s);
    send(&mut screen, &mut s, KeyCode::Esc);
    assert_eq!(screen.focus_stack, vec![0]);
    assert_eq!(send(&mut screen, &mut s, KeyCode::Esc), SettingsOutcome::EnterSimulation);
    assert_eq!(s.screen, Screen::Simulation);
    assert_eq!(screen.focus_stack, vec![0]);
}

#[test]
fn arrows_need_a_parent_in_the_path() {
    let mut s = AppState::new();
    let mut screen = SettingsScreen::new(&s);
    send(&mut screen, &mut s, KeyCode::Esc);
    assert!(!screen.can_handle(&press(KeyCode::Down)));
    assert!(screen.can_handle(&press(KeyCode::Char('x'))));
}

#[test]
fn other_keys_go_to_the_column_which_ignores_them() {
    let mut s = AppState::new();
    let mut screen = SettingsScreen::new(&s);
    assert_eq!(send(&mut screen, &mut s, KeyCode::Char('7')), SettingsOutcome::Stay);
    assert_eq!(s.simulations_settings.len(), 0);
    assert_eq!(s.key_bindings.len(), 0);
    assert_eq!(screen.focus_stack, vec![0, 0]);
}

