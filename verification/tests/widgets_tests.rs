use life_tui::input::{InputEvent, KeyCode, KeyEvent, KeyEventKind};
use life_tui::settings::{AppState, Screen};
use life_tui::widgets::{
    child_focus_stack, is_focused, AbilityToFocus, Button, ButtonAction, Color, Component,
    Container, Feedback, Input, KeybindInput, Label,
};

fn press(code: KeyCode) -> InputEvent {
    InputEvent::Key(KeyEvent { code, kind: KeyEventKind::Press, modifiers: 0 })
}

fn alive_setting(s: &AppState) -> Option<usize> {
    s.simulations_settings.get(&"cells_to_alive".to_string()).copied()
}

#[test]
fn focus_helpers() {
    assert!(is_focused(&vec![2, 0], 2, true));
    assert!(!is_focused(&vec![2, 0], 2, false));
    assert!(!is_focused(&vec![1], 2, true));
    assert!(!is_focused(&vec![], 0, true));
    assert_eq!(child_focus_stack(&vec![3, 1, 4]), vec![1, 4]);
    assert_eq!(child_focus_stack(&vec![3]), Vec::<usize>::new());
    assert_eq!(child_focus_stack(&vec![]), Vec::<usize>::new());
}

#[test]
fn input_starts_with_setting_value() {
    let mut s = AppState::new();
    let i = Input::new("cells_to_alive".to_string(), &s);
    assert_eq!(i.value_string(), "0");
    assert_eq!(i.get_value(), 0);
    s.simulations_settings.insert("cells_to_alive".to_string(), 1205);
    let i = Input::new("cells_to_alive".to_string(), &s).with_title("t".to_string());
    assert_eq!(i.value_string(), "1205");
    assert_eq!(i.get_value(), 1205);
    assert_eq!(i.title(), "t");
    assert!(i.border());
    assert!(!i.editing());
}

#[test]
fn typing_digits_updates_setting() {
    let mut s = AppState::new();
    s.simulations_settings.insert("cells_to_alive".to_string(), 2);
    let mut i = Input::new("cells_to_alive".to_string(), &s);
    assert_eq!(i.handle_event(&press(KeyCode::Char('5')), &mut s), Feedback::Nothing);
    assert!(i.editing());
    assert_eq!(i.value_string(), "25");
    assert_eq!(alive_setting(&s), Some(25));
    i.handle_event(&press(KeyCode::Left), &mut s);
    i.handle_event(&press(KeyCode::Left), &mut s);
    i.handle_event(&press(KeyCode::Char('1')), &mut s);
    assert_eq!(i.value_string(), "125");
    assert_eq!(alive_setting(&s), Some(125));
    i.handle_event(&press(KeyCode::Right), &mut s);
    i.handle_event(&press(KeyCode::Right), &mut s);
    i.handle_event(&press(KeyCode::Right), &mut s);
    i.handle_event(&press(KeyCode::Backspace), &mut s);
    assert_eq!(i.value_string(), "12");
    assert_eq!(alive_setting(&s), Some(12));
    i.handle_event(&press(KeyCode::Esc), &mut s);
    assert!(!i.editing());
}

#[test]
fn backspace_undoes_typed_digit() {
    let mut s = AppState::new();
    s.simulations_settings.insert("cells_to_alive".to_string(), 47);
    let mut i = Input::new("cells_to_alive".to_string(), &s);
    i.handle_event(&press(KeyCode::Char('9')), &mut s);
    i.handle_event(&press(KeyCode::Backspace), &mut s);
    assert_eq!(i.value_string(), "47");
    assert_eq!(alive_setting(&s), Some(47));
}

#[test]
fn backspace_at_start_does_nothing() {
    let mut s = AppState::new();
    s.simulations_settings.insert("cells_to_alive".to_string(), 3);
    let mut i = Input::new("cells_to_alive".to_string(), &s);
    i.shift_left();
    i.shift_left();
    i.delete_char(&mut s);
    assert_eq!(i.value_string(), "3");
}

#[test]
fn non_digit_leaves_message() {
    let mut s = AppState::new();
    let mut i = Input::new("cells_to_birth".to_string(), &s);
    i.handle_event(&press(KeyCode::Char('x')), &mut s);
    assert_eq!(s.error_message, "разрешены только цифры");
    assert_eq!(i.value_string(), "0");
    let mut s2 = AppState::new();
    i.handle_event(&press(KeyCode::Tab), &mut s2);
    assert_eq!(s2.error_message, "разрешены только цифры");
}

#[test]
fn number_too_large_counts_as_zero() {
    let mut s = AppState::new();
    s.simulations_settings.insert("cells_to_alive".to_string(), 2147483647);
    let mut i = Input::new("cells_to_alive".to_string(), &s);
    assert_eq!(i.get_value(), 2147483647);
    i.handle_event(&press(KeyCode::Char('0')), &mut s);
    assert_eq!(i.value_string(), "21474836470");
    assert_eq!(i.get_value(), 0);
    assert_eq!(alive_setting(&s), Some(0));
}

#[test]
fn leading_zeros_keep_the_number() {
    let mut s = AppState::new();
    let mut i = Input::new("simulation_speed".to_string(), &s);
    i.handle_event(&press(KeyCode::Char('4')), &mut s);
    assert_eq!(i.value_string(), "04");
    assert_eq!(i.get_value(), 4);
}

#[test]
fn cursor_spans_split_the_digits() {
    let mut s = AppState::new();
    s.simulations_settings.insert("cells_to_alive".to_string(), 345);
    let mut i = Input::new("cells_to_alive".to_string(), &s);
    assert_eq!(i.cursor_spans(), (vec!['3', '4', '5'], ' ', vec![]));
    i.shift_left();
    i.shift_left();
    assert_eq!(i.cursor_spans(), (vec!['3'], '4', vec!['5']));
    i.shift_left();
    assert_eq!(i.cursor_spans(), (vec![], '3', vec!['4', '5']));
}

#[test]
fn frames_follow_focus() {
    let s = AppState::new();
    let i = Input::new("cells_to_alive".to_string(), &s);
    assert_eq!(i.frame(&vec![1], 1, true).color, Color::Yellow);
    assert_eq!(i.frame(&vec![1, 0], 1, true).color, Color::White);
    let b = Button { action: ButtonAction::SaveSettings };
    assert_eq!(b.frame(&vec![0, 3], 0, true).color, Color::Yellow);
    assert_eq!(b.frame(&vec![0], 1, true).color, Color::White);
    let l = Label { text: "x".to_string(), border: true };
    let f = l.frame();
    assert_eq!((f.borders, f.color), (true, Color::DarkGray));
    let mut c = Container::new();
    c.title = "мир".to_string();
    let f = c.frame(&vec![0], 0, true);
    assert_eq!((f.title.as_str(), f.color), ("мир", Color::Yellow));
    let f = c.frame(&vec![0, 1], 0, true);
    assert_eq!((f.title.as_str(), f.color), ("мир", Color::Black));
    let f = c.frame(&vec![1], 0, true);
    assert_eq!((f.title.as_str(), f.color), ("", Color::Black));
}

#[test]
fn keybind_enter_then_key_binds() {
    let mut s = AppState::new();
    s.error_message = "old".to_string();
    let mut k = KeybindInput::new("pause".to_string(), "пауза".to_string());
    assert_eq!(k.shown_value(&s), "?");
    assert_eq!(k.handle_event(&press(KeyCode::Enter), &mut s), Feedback::Nothing);
    assert!(k.editing);
    assert_eq!(k.shown_value(&s), "press key");
    assert_eq!(k.frame(&vec![], 0, false).color, Color::Yellow);
    assert_eq!(k.handle_event(&press(KeyCode::Char('з')), &mut s), Feedback::Esc);
    assert!(!k.editing);
    assert_eq!(k.current_binding(&s), "P");
    assert_eq!(k.shown_value(&s), "P");
    assert_eq!(s.error_message, "");
    assert_eq!(k.frame(&vec![], 0, false).color, Color::Black);
}

#[test]
fn keybind_ignores_keys_until_enter() {
    let mut s = AppState::new();
    let mut k = KeybindInput::new("step".to_string(), "шаг".to_string());
    assert_eq!(k.handle_event(&press(KeyCode::Char('x')), &mut s), Feedback::Nothing);
    assert!(!k.editing);
    assert_eq!(s.key_bindings.len(), 0);
    k.set_binding("T".to_string(), &mut s);
    assert_eq!(k.current_binding(&s), "T");
}

#[test]
fn button_fires_on_enter() {
    let mut s = AppState::new();
    let mut b = Button { action: ButtonAction::StartSimulation };
    assert_eq!(b.handle_event(&press(KeyCode::Char('a')), &mut s), (Feedback::Nothing, None));
    assert_eq!(s.screen, Screen::Settings);
    assert_eq!(
        b.handle_event(&press(KeyCode::Enter), &mut s),
        (Feedback::Esc, Some(ButtonAction::StartSimulation))
    );
    assert_eq!(s.screen, Screen::Simulation);
    let mut s2 = AppState::new();
    let mut save = Button { action: ButtonAction::SaveSettings };
    assert_eq!(
        save.handle_event(&press(KeyCode::Enter), &mut s2),
        (Feedback::Esc, Some(ButtonAction::SaveSettings))
    );
    assert_eq!(s2.screen, Screen::Settings);
}

#[test]
fn container_focus_counts() {
    let s = AppState::new();
    let mut c = Container::new();
    c.add_child(Component::Label(Label { text: "a".to_string(), border: true }));
    c.add_child(Component::Input(Input::new("cells_to_alive".to_string(), &s)));
    let mut inner = Container::new();
    inner.can_be_in_focus = false;
    c.add_child(Component::Container(inner));
    c.add_child(Component::Button(Button { action: ButtonAction::Nothing }));
    let comp = Component::Container(c);
    assert_eq!(comp.get_focusable_indexes(), vec![1, 3]);
    assert_eq!(comp.get_children_count(), 2);
    assert_eq!(comp.can_be_in_focus(), AbilityToFocus::CanBeInFocus);
    let l = Component::Label(Label { text: "b".to_string(), border: false });
    assert_eq!(l.can_be_in_focus(), AbilityToFocus::CantBeInFocus);
    assert_eq!(l.get_children_count(), 0);
    let b = Component::Button(Button { action: ButtonAction::Nothing });
    assert_eq!(b.get_children_count(), 1);
    assert_eq!(b.get_focusable_indexes(), Vec::<usize>::new());
}

#[test]
fn container_ignores_events() {
    let mut s = AppState::new();
    let mut c = Component::Container(Container::new());
    assert_eq!(c.handle_event(&press(KeyCode::Char('5')), &mut s), (Feedback::Nothing, None));
    assert_eq!(s.simulations_settings.len(), 0);
}

#[test]
fn editing_keeps_title_and_border() {
    let mut s = AppState::new();
    let mut i = Input::new("cells_to_birth".to_string(), &s).with_title("для рождения:".to_string());
    for code in [KeyCode::Char('4'), KeyCode::Left, KeyCode::Right, KeyCode::Backspace, KeyCode::Char('x'), KeyCode::Esc] {
        i.handle_event(&press(code), &mut s);
        assert_eq!(i.title(), "для рождения:");
        assert!(i.border());
    }
}
