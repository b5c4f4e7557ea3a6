//! The settings screen: its tree of widgets and how the keys move the focus
//! through it.

use vstd::prelude::*;

use crate::input::{InputEvent, KeyCode};
use crate::settings::{AppState, Screen};
use crate::widgets::{
    children_count_spec, component_effect, decimal, focusable_indexes_spec, lemma_focusable_increasing, AbilityToFocus, Button,
    ButtonAction, Component, Container, Direction, Input, KeybindInput, Label,
};

verus! {

broadcast use vstd::string::group_string_axioms;

/// A string holding `s`.
fn owned(s: &str) -> (r: String)
    ensures
        r@ == s@,
{
    s.to_string()
}

/// A container with the given look and no children.
fn container(title: &str, direction: Direction, can_be_in_focus: bool, borders: bool) -> (c: Container)
    ensures
        c.title@ == title@,
        c.direction == direction,
        c.can_be_in_focus == can_be_in_focus,
        c.borders == borders,
        c.children@.len() == 0,
{
    Container { title: owned(title), direction, can_be_in_focus, children: Vec::new(), borders }
}

/// A bordered label.
fn label(text: &str) -> (c: Component)
    ensures
        c matches Component::Label(l) && l.text@ == text@ && l.border,
{
    Component::Label(Label { text: owned(text), border: true })
}

/// A button.
fn button(action: ButtonAction) -> (c: Component)
    ensures
        c == Component::Button(Button { action }),
{
    Component::Button(Button { action })
}

/// `c` is a bordered label reading `text`.
pub open spec fn is_label(c: Component, text: Seq<char>) -> bool {
    c matches Component::Label(l) && l.text@ == text && l.border
}

/// `c` is a fresh number field for the setting `id`, titled `title`.
pub open spec fn is_input(c: Component, id: Seq<char>, title: Seq<char>, state: AppState) -> bool {
    c matches Component::Input(i) && i.id_spec() == id && i.title_spec() == title && i.border_spec()
        && !i.editing_spec() && i.cursor_spec() == i.digits().len() && (if state.simulations_settings@.contains_key(id) {
        i.digits() == decimal(state.simulations_settings@[id] as nat)
    } else {
        i.digits() == seq!['0']
    })
}


/// `c` is a container with the given look.
pub open spec fn is_container(
    c: Component,
    title: Seq<char>,
    direction: Direction,
    can_be_in_focus: bool,
    borders: bool,
    n: nat,
) -> bool {
    c matches Component::Container(k) && k.title@ == title && k.direction == direction
        && k.can_be_in_focus == can_be_in_focus && k.borders == borders && k.children@.len() == n
}

/// The `i`-th child of a container.
pub open spec fn child(c: Component, i: int) -> Component {
    match c {
        Component::Container(k) => k.children@[i],
        _ => c,
    }
}

/// The actions that can be bound, with their labels, in the order shown.
pub open spec fn bindable_actions() -> Seq<(Seq<char>, Seq<char>)> {
    seq![
        ("pause"@, "пауза"@),
        ("right"@, "→"@),
        ("left"@, "←"@),
        ("up"@, "↑"@),
        ("down"@, "↓"@),
        ("zoom_in"@, "приблизить"@),
        ("zoom_out"@, "отдалить"@),
        ("speed_up"@, "ускорить"@),
        ("speed_down"@, "замедлить"@),
        ("step"@, "совершить одну итерацию"@),
    ]
}

/// The tree of widgets of the settings screen, for the settings of `state`.
pub open spec fn settings_tree(root: Component, state: AppState) -> bool {
    let col1 = child(root, 0);
    let cell_count = child(col1, 0);
    let sim_speed = child(col1, 1);
    let buttons = child(col1, 2);
    let col_actions = child(buttons, 0);
    let col_settings = child(buttons, 1);
    let col_sim = child(buttons, 2);
    let col2 = child(root, 1);
    &&& is_container(root, Seq::empty(), Direction::Horizontal, true, false, 3)
    &&& is_container(col1, "мир"@, Direction::Vertical, true, true, 3)
    &&& is_container(cell_count, Seq::empty(), Direction::Vertical, true, true, 3)
    &&& is_label(child(cell_count, 0), "Количество клеток:"@)
    &&& is_input(child(cell_count, 1), "cells_to_alive"@, "для выживания:"@, state)
    &&& is_input(child(cell_count, 2), "cells_to_birth"@, "для рождения:"@, state)
    &&& is_container(sim_speed, Seq::empty(), Direction::Vertical, true, true, 2)
    &&& is_label(child(sim_speed, 0), "Скорость симуляции:"@)
    &&& is_input(child(sim_speed, 1), "simulation_speed"@, Seq::empty(), state)
    &&& is_container(buttons, Seq::empty(), Direction::Horizontal, true, true, 3)
    &&& is_container(col_actions, Seq::empty(), Direction::Vertical, false, false, 4)
    &&& is_label(child(col_actions, 0), "действие"@)
    &&& is_label(child(col_actions, 1), "сохранить"@)
    &&& is_label(child(col_actions, 2), "импорт"@)
    &&& is_label(child(col_actions, 3), "экспорт"@)
    &&& is_container(col_settings, Seq::empty(), Direction::Vertical, true, true, 4)
    &&& is_label(child(col_settings, 0), "настройки"@)
    &&& child(col_settings, 1) == Component::Button(Button { action: ButtonAction::SaveSettings })
    &&& child(col_settings, 2) == Component::Button(Button { action: ButtonAction::ImportSettings })
    &&& child(col_settings, 3) == Component::Button(Button { action: ButtonAction::ExportSettings })
    &&& is_container(col_sim, Seq::empty(), Direction::Vertical, true, true, 4)
    &&& is_label(child(col_sim, 0), "симуляция"@)
    &&& child(col_sim, 1) == Component::Button(Button { action: ButtonAction::StartSimulation })
    &&& child(col_sim, 2) == Component::Button(Button { action: ButtonAction::Nothing })
    &&& child(col_sim, 3) == Component::Button(Button { action: ButtonAction::Nothing })
    &&& is_container(col2, Seq::empty(), Direction::Vertical, true, true, 10)
    &&& forall|i: int|
        #![trigger child(col2, i)]
        0 <= i < 10 ==> (child(col2, i) matches Component::KeybindInput(k) && k.action_id@
            == bindable_actions()[i].0 && k.label@ == bindable_actions()[i].1 && !k.editing)
    &&& is_container(child(root, 2), Seq::empty(), Direction::Horizontal, true, false, 0)
}

/// A number field in a component.
fn input_component(id: &str, title: &str, state: &AppState) -> (c: Component)
    ensures
        is_input(c, id@, title@, *state),
{
    proof {
        reveal_strlit("");
    }
    let i = Input::new(owned(id), state).with_title(owned(title));
    Component::Input(i)
}

/// The tree of widgets of the settings screen: a column for the world
/// (the rules, the speed and the buttons), a column of key-binding fields
/// and an empty column.
pub fn build_settings_root(state: &AppState) -> (root: Component)
    ensures
        settings_tree(root, *state),
{
    proof {
        reveal_strlit("");
    }
    let mut root_container = Container::new();
    let mut col1 = container("мир", Direction::Vertical, true, true);
    let mut cell_count = container("", Direction::Vertical, true, true);
    cell_count.add_child(label("Количество клеток:"));
    cell_count.add_child(input_component("cells_to_alive", "для выживания:", state));
    cell_count.add_child(input_component("cells_to_birth", "для рождения:", state));
    let ghost cell_count_v = Component::Container(cell_count);
    assert(is_label(child(cell_count_v, 0), "Количество клеток:"@));
    assert(is_input(child(cell_count_v, 1), "cells_to_alive"@, "для выживания:"@, *state));
    col1.add_child(Component::Container(cell_count));
    let mut sim_speed = container("", Direction::Vertical, true, true);
    sim_speed.add_child(label("Скорость симуляции:"));
    sim_speed.add_child(input_component("simulation_speed", "", state));
    let ghost sim_speed_v = Component::Container(sim_speed);
    col1.add_child(Component::Container(sim_speed));
    let mut buttons = container("", Direction::Horizontal, true, true);
    let mut col_actions = container("", Direction::Vertical, false, false);
    col_actions.add_child(label("действие"));
    col_actions.add_child(label("сохранить"));
    col_actions.add_child(label("импорт"));
    col_actions.add_child(label("экспорт"));
    buttons.add_child(Component::Container(col_actions));
    let mut col_settings = container("", Direction::Vertical, true, true);
    col_settings.add_child(label("настройки"));
    col_settings.add_child(button(ButtonAction::SaveSettings));
    col_settings.add_child(button(ButtonAction::ImportSettings));
    col_settings.add_child(button(ButtonAction::ExportSettings));
    buttons.add_child(Component::Container(col_settings));
    let mut col_sim = container("", Direction::Vertical, true, true);
    col_sim.add_child(label("симуляция"));
    col_sim.add_child(button(ButtonAction::StartSimulation));
    col_sim.add_child(button(ButtonAction::Nothing));
    col_sim.add_child(button(ButtonAction::Nothing));
    buttons.add_child(Component::Container(col_sim));
    let ghost buttons_v = Component::Container(buttons);
    assert(buttons.children@.len() == 3);
    assert(buttons.title@ == Seq::<char>::empty());
    assert(is_container(buttons_v, Seq::empty(), Direction::Horizontal, true, true, 3));
    col1.add_child(Component::Container(buttons));
    let ghost col1_v = Component::Container(col1);
    assert(child(col1_v, 0) == cell_count_v);
    assert(child(col1_v, 1) == sim_speed_v);
    assert(child(col1_v, 2) == buttons_v);
    root_container.add_child(Component::Container(col1));
    let mut col2 = container("", Direction::Vertical, true, true);
    col2.add_child(Component::KeybindInput(KeybindInput::new(owned("pause"), owned("пауза"))));
    col2.add_child(Component::KeybindInput(KeybindInput::new(owned("right"), owned("→"))));
    col2.add_child(Component::KeybindInput(KeybindInput::new(owned("left"), owned("←"))));
    col2.add_child(Component::KeybindInput(KeybindInput::new(owned("up"), owned("↑"))));
    col2.add_child(Component::KeybindInput(KeybindInput::new(owned("down"), owned("↓"))));
    col2.add_child(
        Component::KeybindInput(KeybindInput::new(owned("zoom_in"), owned("приблизить"))),
    );
    col2.add_child(Component::KeybindInput(KeybindInput::new(owned("zoom_out"), owned("отдалить"))));
    col2.add_child(Component::KeybindInput(KeybindInput::new(owned("speed_up"), owned("ускорить"))));
    col2.add_child(
        Component::KeybindInput(KeybindInput::new(owned("speed_down"), owned("замедлить"))),
    );
    col2.add_child(
        Component::KeybindInput(
            KeybindInput::new(owned("step"), owned("совершить одну итерацию")),
        ),
    );
    let ghost col2_v = Component::Container(col2);
    root_container.add_child(Component::Container(col2));
    root_container.add_child(Component::Container(Container::new()));
    let root = Component::Container(root_container);
    assert(child(root, 0) == col1_v);
    assert(child(root, 1) == col2_v);
    proof {
        assert forall|i: int|
            #![trigger child(col2_v, i)]
            0 <= i < 10 implies (child(col2_v, i) matches Component::KeybindInput(k) && k.action_id@
                == bindable_actions()[i].0 && k.label@ == bindable_actions()[i].1 && !k.editing) by {
            reveal_strlit("pause");
            reveal_strlit("пауза");
        }
    }
    root
}

/// What the settings screen asks for after an event.
#[derive(Clone, Copy, Debug, PartialEq, Eq, Structural)]
pub enum SettingsOutcome {
    /// Nothing more to do.
    Stay,
    /// A button was fired: carry out its action.
    Request(ButtonAction),
    /// Leave for the simulation screen, taking the settings along.
    EnterSimulation,
}

/// The `i`-th child of the root, if there is one.
pub open spec fn root_child(root: Component, i: int) -> Option<Component> {
    match root {
        Component::Container(k) => if 0 <= i < k.children@.len() {
            Some(k.children@[i])
        } else {
            None
        },
        _ => None,
    }
}

/// The first position of `v` in `s`, or 0 if it is not there.
pub open spec fn position_or_first(s: Seq<usize>, v: usize) -> int {
    if exists|i: int| 0 <= i < s.len() && s[i] == v {
        choose|i: int| 0 <= i < s.len() && s[i] == v && forall|j: int| 0 <= j < i ==> s[j] != v
    } else {
        0
    }
}

/// The focus path after the focus moves by `d` places among the focusable
/// children of the root's child at the head of the path, wrapping around;
/// the last index of the path is replaced.
pub open spec fn moved_focus(root: Component, stack: Seq<usize>, d: int) -> Seq<usize> {
    match root_child(root, stack[0] as int) {
        Some(p) => if children_count_spec(p) > 1 {
            let f = focusable_indexes_spec(p);
            let n = children_count_spec(p) as int;
            let pos = position_or_first(f, stack.last());
            stack.update(stack.len() - 1, f[(pos + d) % n])
        } else {
            stack
        },
        None => stack,
    }
}

/// The focus path after entering the root's child at the head of the path:
/// its first focusable child (or 0) is added to the path.
pub open spec fn entered_focus(root: Component, stack: Seq<usize>) -> Seq<usize> {
    match root_child(root, stack[0] as int) {
        Some(c) => if children_count_spec(c) > 0 {
            let f = focusable_indexes_spec(c);
            stack.push(if f.len() == 0 {
                0usize
            } else {
                f[0]
            })
        } else {
            stack
        },
        None => stack,
    }
}

/// Whether `ev` is a press of an arrow key.
pub open spec fn is_arrow_press(ev: InputEvent) -> bool {
    ev.is_press_of(KeyCode::Left) || ev.is_press_of(KeyCode::Up) || ev.is_press_of(KeyCode::Down)
        || ev.is_press_of(KeyCode::Right)
}

/// Whether `ev` is handed to the widget at the head of the focus path: an
/// event other than a key, or a press of a key the screen does not use.
pub open spec fn handed_to_widget(ev: InputEvent) -> bool {
    match ev {
        InputEvent::Key(_) => ev.pressed_key() is Some && !is_arrow_press(ev) && !ev.is_press_of(
            KeyCode::Enter,
        ) && !ev.is_press_of(KeyCode::Esc),
        _ => true,
    }
}

/// The settings screen: the tree of widgets and the focus path, a list of
/// child indexes from the root.
pub struct SettingsScreen {
    pub root: Component,
    pub focus_stack: Vec<usize>,
}

impl SettingsScreen {
    /// The screen for the settings of `state`, the focus on the first
    /// widget of the first column.
    pub fn new(state: &AppState) -> (s: Self)
        ensures
            settings_tree(s.root, *state),
            s.focus_stack@ == seq![0usize, 0usize],
    {
        let root = build_settings_root(state);
        let focus_stack = vec![0usize, 0usize];
        SettingsScreen { root, focus_stack }
    }

    /// Whether the focus path is long enough for `ev`: an arrow needs a
    /// parent in the path, anything else a head.
    pub open spec fn can_handle_spec(self, ev: InputEvent) -> bool {
        &&& is_arrow_press(ev) ==> self.focus_stack@.len() >= 2
        &&& (ev.is_press_of(KeyCode::Enter) || handed_to_widget(ev)) ==> self.focus_stack@.len()
            >= 1
    }

    /// Whether the focus path is long enough for `ev`.
    pub fn can_handle(&self, ev: &InputEvent) -> (ok: bool)
        ensures
            ok == self.can_handle_spec(*ev),
    {
        let arrow = ev.is_press(KeyCode::Left) || ev.is_press(KeyCode::Up) || ev.is_press(
            KeyCode::Down,
        ) || ev.is_press(KeyCode::Right);
        let others = ev.is_press(KeyCode::Enter) || match ev {
            InputEvent::Key(k) => k.kind == crate::input::KeyEventKind::Press && !arrow
                && !ev.is_press(KeyCode::Enter) && !ev.is_press(KeyCode::Esc),
            _ => true,
        };
        (!arrow || self.focus_stack.len() >= 2) && (!others || self.focus_stack.len() >= 1)
    }

    /// The first position of `v` in `s`, or 0 if it is not there.
    fn position_or_first(s: &Vec<usize>, v: usize) -> (p: usize)
        ensures
            p == position_or_first(s@, v),
            s.len() > 0 ==> p < s.len(),
    {
        let mut i: usize = 0;
        while i < s.len()
            invariant
                i <= s.len(),
                forall|j: int| 0 <= j < i ==> s@[j] != v,
            decreases s.len() - i,
        {
            if s[i] == v {
                proof {
                    let c = choose|c: int|
                        0 <= c < s@.len() && s@[c] == v && forall|j: int| 0 <= j < c ==> s@[j] != v;
                    assert(c == i as int) by {
                        if c > i {
                            assert(s@[i as int] == v);
                        }
                    }
                }
                return i;
            }
            i = i + 1;
        }
        0
    }

    /// Moves the focus by one place back (`forward` false) or forward among
    /// the focusable children of the root's child at the head of the path.
    fn move_focus(&mut self, forward: bool)
        requires
            old(self).focus_stack@.len() >= 2,
        ensures
            final(self).focus_stack@ == moved_focus(
                old(self).root,
                old(self).focus_stack@,
                if forward {
                    1
                } else {
                    -1
                },
            ),
            final(self).root == old(self).root,
    {
        let head = self.focus_stack[0];
        let parent = match &self.root {
            Component::Container(k) => if head < k.children.len() {
                Some(&k.children[head])
            } else {
                None
            },
            _ => None,
        };
        if let Some(parent) = parent {
            let siblings = parent.get_children_count();
            if siblings > 1 {
                let focusable = parent.get_focusable_indexes();
                let last_index = self.focus_stack.len() - 1;
                let last = self.focus_stack[last_index];
                let current_pos = Self::position_or_first(&focusable, last);
                let new_pos = if forward {
                    if current_pos + 1 >= siblings {
                        0
                    } else {
                        current_pos + 1
                    }
                } else {
                    if current_pos == 0 {
                        siblings - 1
                    } else {
                        current_pos - 1
                    }
                };
                proof {
                    let d: int = if forward {
                        1
                    } else {
                        -1
                    };
                    let n = siblings as int;
                    assert(focusable@.len() == n);
                    if forward {
                        if current_pos + 1 >= siblings {
                            vstd::arithmetic::div_mod::lemma_fundamental_div_mod_converse(
                                current_pos + d,
                                n,
                                1,
                                0,
                            );
                        } else {
                            vstd::arithmetic::div_mod::lemma_fundamental_div_mod_converse(
                                current_pos + d,
                                n,
                                0,
                                current_pos + d,
                            );
                        }
                    } else {
                        if current_pos == 0 {
                            vstd::arithmetic::div_mod::lemma_fundamental_div_mod_converse(
                                current_pos + d,
                                n,
                                -1,
                                n - 1,
                            );
                        } else {
                            vstd::arithmetic::div_mod::lemma_fundamental_div_mod_converse(
                                current_pos + d,
                                n,
                                0,
                                current_pos + d,
                            );
                        }
                    }
                    assert(new_pos == (current_pos + d) % n);
                }
                self.focus_stack.set(last_index, focusable[new_pos]);
            }
        }
    }

    /// Handles an event of the settings screen: the arrows move the focus,
    /// Enter goes into the focused widget, Esc leaves it, or at the top
    /// switches to the simulation screen; anything else is handed to the
    /// widget at the head of the focus path.
    #[verifier::spinoff_prover]
    pub fn handle_event(&mut self, ev: &InputEvent, state: &mut AppState) -> (outcome: SettingsOutcome)
        requires
            old(self).can_handle_spec(*ev),
        ensures
            (ev.is_press_of(KeyCode::Left) || ev.is_press_of(KeyCode::Up)) ==> final(self).focus_stack@
                == moved_focus(old(self).root, old(self).focus_stack@, -1) && final(self).root == old(
                self).root && *final(state) == *old(state) && outcome == SettingsOutcome::Stay,
            (ev.is_press_of(KeyCode::Down) || ev.is_press_of(KeyCode::Right)) ==> final(
                self).focus_stack@ == moved_focus(old(self).root, old(self).focus_stack@, 1) && final(
                self).root == old(self).root && *final(state) == *old(state) && outcome
                == SettingsOutcome::Stay,
            ev.is_press_of(KeyCode::Enter) ==> final(self).focus_stack@ == entered_focus(
                old(self).root,
                old(self).focus_stack@,
            ) && final(self).root == old(self).root && *final(state) == *old(state) && outcome
                == SettingsOutcome::Stay,
            ev.is_press_of(KeyCode::Esc) && old(self).focus_stack@.len() > 1 ==> final(
                self).focus_stack@ == old(self).focus_stack@.drop_last() && final(self).root == old(
                self).root && *final(state) == *old(state) && outcome == SettingsOutcome::Stay,
            ev.is_press_of(KeyCode::Esc) && old(self).focus_stack@.len() <= 1 ==> final(
                self).focus_stack@ == old(self).focus_stack@ && final(self).root == old(self).root
                && final(state).screen == Screen::Simulation && final(state).key_bindings@ == old(
                state).key_bindings@ && final(state).simulations_settings@ == old(
                state).simulations_settings@ && final(state).error_message == old(
                state).error_message && outcome == SettingsOutcome::EnterSimulation,
            handed_to_widget(*ev) ==> final(self).focus_stack@ == old(self).focus_stack@ && match root_child(
                old(self).root,
                old(self).focus_stack@[0] as int,
            ) {
                Some(c) => Self::child_handled(
                    old(self).root,
                    final(self).root,
                    old(self).focus_stack@[0] as int,
                    *old(state),
                    *final(state),
                    *ev,
                    outcome,
                ),
                None => final(self).root == old(self).root && *final(state) == *old(state) && outcome
                    == SettingsOutcome::Stay,
            },
            ev is Key && ev.pressed_key() is None ==> final(self).focus_stack@ == old(
                self).focus_stack@ && final(self).root == old(self).root && *final(state) == *old(
                state) && outcome == SettingsOutcome::Stay,
    {
        if ev.is_press(KeyCode::Left) || ev.is_press(KeyCode::Up) {
            self.move_focus(false);
            return SettingsOutcome::Stay;
        }
        if ev.is_press(KeyCode::Down) || ev.is_press(KeyCode::Right) {
            self.move_focus(true);
            return SettingsOutcome::Stay;
        }
        if ev.is_press(KeyCode::Enter) {
            let head = self.focus_stack[0];
            let next = match &self.root {
                Component::Container(k) => if head < k.children.len() {
                    if k.children[head].get_children_count() > 0 {
                        let focusable = k.children[head].get_focusable_indexes();
                        Some(
                            if focusable.len() == 0 {
                                0
                            } else {
                                focusable[0]
                            },
                        )
                    } else {
                        None
                    }
                } else {
                    None
                },
                _ => None,
            };
            if let Some(n) = next {
                self.focus_stack.push(n);
            }
            return SettingsOutcome::Stay;
        }
        if ev.is_press(KeyCode::Esc) {
            if self.focus_stack.len() > 1 {
                self.focus_stack.pop();
                return SettingsOutcome::Stay;
            } else {
                state.screen = Screen::Simulation;
                return SettingsOutcome::EnterSimulation;
            }
        }
        let pressed = match ev {
            InputEvent::Key(k) => k.kind == crate::input::KeyEventKind::Press,
            _ => true,
        };
        if !pressed {
            return SettingsOutcome::Stay;
        }
        let head = self.focus_stack[0];
        let ghost mut handled: (crate::widgets::Feedback, Option<ButtonAction>) = (
            crate::widgets::Feedback::Nothing,
            None,
        );
        let outcome = match &mut self.root {
            Component::Container(k) => {
                if head < k.children.len() {
                    let r = k.children[head].handle_event(ev, state);
                    proof {
                        handled = r;
                    }
                    match r.1 {
                        Some(a) => SettingsOutcome::Request(a),
                        None => SettingsOutcome::Stay,
                    }
                } else {
                    SettingsOutcome::Stay
                }
            },
            _ => SettingsOutcome::Stay,
        };
        proof {
            let ghost a = old(self).root;
            let ghost b = self.root;
            if let Component::Container(ka) = a {
                if let Component::Container(kb) = b {
                    if head < ka.children@.len() {
                        assert(component_effect(
                            ka.children@[head as int],
                            kb.children@[head as int],
                            *old(state),
                            *state,
                            *ev,
                            handled,
                        ));
                    }
                }
            }
        }
        outcome
    }

    /// The root `b` is the root `a` with its `i`-th child having handled
    /// `ev`, and `outcome` hands on the action of a fired button.
    pub open spec fn child_handled(
        a: Component,
        b: Component,
        i: int,
        s0: AppState,
        s1: AppState,
        ev: InputEvent,
        outcome: SettingsOutcome,
    ) -> bool {
        a matches Component::Container(ka) && b matches Component::Container(kb) && kb.title
            == ka.title && kb.direction == ka.direction && kb.can_be_in_focus == ka.can_be_in_focus
            && kb.borders == ka.borders && kb.children@ == ka.children@.update(i, kb.children@[i])
            && exists|r: (crate::widgets::Feedback, Option<ButtonAction>)|
            component_effect(ka.children@[i], kb.children@[i], s0, s1, ev, r) && outcome == match r.1 {
                Some(x) => SettingsOutcome::Request(x),
                None => SettingsOutcome::Stay,
            }
    }
}

/// Going into the focused group with Enter and leaving it with Esc gives
/// back the focus path, whenever Enter went in.
pub proof fn lemma_esc_undoes_enter(root: Component, stack: Seq<usize>)
    requires
        stack.len() >= 1,
        entered_focus(root, stack) != stack,
    ensures
        entered_focus(root, stack).len() > 1,
        entered_focus(root, stack).drop_last() == stack,
{
    let e = entered_focus(root, stack);
    match root_child(root, stack[0] as int) {
        Some(c) => {
            if children_count_spec(c) > 0 {
                assert(e.drop_last() =~= stack);
            }
        },
        None => {},
    }
}

/// The first position of `s[k]` in `s` is `k` when nothing occurs twice.
proof fn lemma_position_of_distinct(s: Seq<usize>, k: int)
    requires
        0 <= k < s.len(),
        forall|i: int, j: int| 0 <= i < j < s.len() ==> #[trigger] s[i] < #[trigger] s[j],
    ensures
        position_or_first(s, s[k]) == k,
{
    let v = s[k];
    assert(0 <= k < s.len() && s[k] == v);
    let c = choose|i: int| 0 <= i < s.len() && s[i] == v && forall|j: int| 0 <= j < i ==> s[j] != v;
    assert(0 <= k < s.len() && s[k] == v && forall|j: int| 0 <= j < k ==> s[j] != v);
    if c < k {
        assert(s[c] < s[k]);
    } else if c > k {
        assert(s[k] < s[c]);
    }
}

/// Moving the focus one place forward and then one place back, or back and
/// then forward, gives back the focus path, when the focused child is one
/// that can take the focus.
pub proof fn lemma_focus_round_trip(root: Component, stack: Seq<usize>, d: int)
    requires
        stack.len() >= 2,
        d == 1 || d == -1,
        root_child(root, stack[0] as int) matches Some(p) && focusable_indexes_spec(p).contains(
            stack.last(),
        ),
    ensures
        moved_focus(root, moved_focus(root, stack, d), -d) == stack,
{
    let p = root_child(root, stack[0] as int)->0;
    let f = focusable_indexes_spec(p);
    let n = children_count_spec(p) as int;
    if let Component::Container(k) = p {
        assert(k.children@.len() == k.children.len());
        lemma_focusable_increasing(k.children@, k.children@.len() as int);
        if n > 1 {
            let pos = choose|i: int| 0 <= i < f.len() && f[i] == stack.last();
            lemma_position_of_distinct(f, pos);
            let q = (pos + d) % n;
            let s1 = stack.update(stack.len() - 1, f[q]);
            assert(s1 == moved_focus(root, stack, d));
            assert(s1[0] == stack[0]);
            assert(s1.last() == f[q]);
            lemma_position_of_distinct(f, q);
            assert((q - d) % n == pos) by {
                if pos + d == n {
                    vstd::arithmetic::div_mod::lemma_mod_self_0(n);
                    vstd::arithmetic::div_mod::lemma_mod_add_multiples_vanish(-1, n);
                    vstd::arithmetic::div_mod::lemma_small_mod((n - 1) as nat, n as nat);
                } else if pos + d == -1 {
                    vstd::arithmetic::div_mod::lemma_mod_add_multiples_vanish(-1, n);
                    vstd::arithmetic::div_mod::lemma_small_mod((n - 1) as nat, n as nat);
                    vstd::arithmetic::div_mod::lemma_mod_self_0(n);
                } else {
                    vstd::arithmetic::div_mod::lemma_small_mod((pos + d) as nat, n as nat);
                    vstd::arithmetic::div_mod::lemma_small_mod(pos as nat, n as nat);
                }
            }
            assert(s1.update(s1.len() - 1, f[pos]) =~= stack);
        }
    }
}


/// The title of the number field for the setting `id`: "для выживания:"
/// (for survival) for `cells_to_alive`, "для рождения:" (for birth) for
/// `cells_to_birth`, and none for `simulation_speed`.
pub open spec fn title_for_setting(id: Seq<char>) -> Option<Seq<char>> {
    if id == "cells_to_alive"@ {
        Some("для выживания:"@)
    } else if id == "cells_to_birth"@ {
        Some("для рождения:"@)
    } else if id == "simulation_speed"@ {
        Some(Seq::empty())
    } else {
        None
    }
}

/// `c` is not a number field, or is one for a setting, titled after it.
pub open spec fn titled_after_setting(c: Component) -> bool {
    match c {
        Component::Input(f) => title_for_setting(f.id_spec()) == Some(f.title_spec()),
        _ => true,
    }
}

/// `c` is a number field for the setting `id`.
pub open spec fn edits_setting(c: Component, id: Seq<char>) -> bool {
    match c {
        Component::Input(f) => f.id_spec() == id,
        _ => false,
    }
}

/// In the settings tree every number field of the world column is titled
/// after the setting it edits, and there is a field for each of the
/// survival count, the birth count and the speed.
pub proof fn lemma_field_titles(root: Component, state: AppState)
    requires
        settings_tree(root, state),
    ensures
        forall|g: int, i: int|
            0 <= g < 2 && 0 <= i < 3 - g ==> titled_after_setting(
                #[trigger] child(child(child(root, 0), g), i),
            ),
        edits_setting(child(child(child(root, 0), 0), 1), "cells_to_alive"@),
        edits_setting(child(child(child(root, 0), 0), 2), "cells_to_birth"@),
        edits_setting(child(child(child(root, 0), 1), 1), "simulation_speed"@),
{
    reveal_strlit("cells_to_alive");
    reveal_strlit("cells_to_birth");
    reveal_strlit("simulation_speed");
    assert("cells_to_alive"@[9] != "cells_to_birth"@[9]);
    assert("cells_to_alive"@[0] != "simulation_speed"@[0]);
    assert("cells_to_birth"@[0] != "simulation_speed"@[0]);
    let col1 = child(root, 0);
    assert forall|g: int, i: int|
        0 <= g < 2 && 0 <= i < 3 - g implies titled_after_setting(
            #[trigger] child(child(child(root, 0), g), i),
        ) by {
        if g == 0 && i == 0 {
        } else if g == 0 && i == 1 {
        } else if g == 0 && i == 2 {
        } else if g == 1 && i == 0 {
        } else {
        }
    }
}

} // verus!
