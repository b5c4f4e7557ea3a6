//! The widgets of the settings screen: containers, labels, number fields,
//! buttons and key-binding fields, what they do with events, and how they
//! are to be drawn.

use vstd::prelude::*;

use crate::input::{InputEvent, KeyCode, KeyEventKind};
use crate::keys::{canonical_key_name, key_name_spec};
use crate::settings::{AppState, Screen};

verus! {

broadcast use vstd::string::group_string_axioms;

/// The character of the decimal digit `d`.
pub open spec fn digit_char(d: int) -> char {
    (48 + d) as char
}

/// Whether `c` is a decimal digit.
pub open spec fn is_digit(c: char) -> bool {
    '0' <= c <= '9'
}

/// The decimal notation of `n`.
pub open spec fn decimal(n: nat) -> Seq<char>
    decreases n,
{
    if n < 10 {
        seq![digit_char(n as int)]
    } else {
        decimal(n / 10).push(digit_char((n % 10) as int))
    }
}

/// The number written by the decimal digits `s`.
pub open spec fn digits_value(s: Seq<char>) -> int
    decreases s.len(),
{
    if s.len() == 0 {
        0
    } else {
        digits_value(s.drop_last()) * 10 + (s.last() as int - 48)
    }
}

/// The decimal notation of a number is made of digits.
pub proof fn lemma_decimal_digits(n: nat)
    ensures
        forall|i: int| 0 <= i < decimal(n).len() ==> is_digit(#[trigger] decimal(n)[i]),
        decimal(n).len() > 0,
    decreases n,
{
    if n >= 10 {
        lemma_decimal_digits(n / 10);
    }
}

/// `usize::to_string`, as characters: the decimal notation of `v`.
#[verifier::external_body]
fn decimal_chars(v: usize) -> (r: Vec<char>)
    ensures
        r@ == decimal(v as nat),
{
    v.to_string().chars().collect()
}

/// `str::parse::<i32>` on a string of decimal digits: the number they write,
/// or `None` for no digit or a number above `i32::MAX`.
#[verifier::external_body]
fn parse_i32(digits: &Vec<char>) -> (r: Option<i32>)
    requires
        forall|i: int| 0 <= i < digits.len() ==> is_digit(#[trigger] digits@[i]),
    ensures
        digits.len() > 0 && digits_value(digits@) <= i32::MAX ==> r == Some(
            digits_value(digits@) as i32,
        ),
        digits.len() == 0 || digits_value(digits@) > i32::MAX ==> r is None,
{
    let s: String = digits.iter().collect();
    s.parse::<i32>().ok()
}

/// A string holding `s`.
fn owned(s: &str) -> (r: String)
    ensures
        r@ == s@,
{
    s.to_string()
}

/// The way the children of a container are laid out.
#[derive(Clone, Copy, Debug, PartialEq, Eq, Structural)]
pub enum Direction {
    Horizontal,
    Vertical,
}

/// What a widget asks of the screen after an event.
#[derive(Clone, Copy, Debug, PartialEq, Eq, Structural)]
pub enum Feedback {
    Esc,
    Nothing,
}

/// Whether a widget can take the focus.
#[derive(Clone, Copy, Debug, PartialEq, Eq, Structural)]
pub enum AbilityToFocus {
    CanBeInFocus,
    CantBeInFocus,
}

/// What a button does when pressed.
#[derive(Clone, Copy, Debug, PartialEq, Eq, Structural)]
pub enum ButtonAction {
    /// Save the settings to the current files.
    SaveSettings,
    /// Import key bindings from a file the user picks.
    ImportSettings,
    /// Export the key bindings to a file the user picks.
    ExportSettings,
    /// Switch to the simulation screen.
    StartSimulation,
    /// Nothing.
    Nothing,
}

/// A colour of the settings screen.
#[derive(Clone, Copy, Debug, PartialEq, Eq, Structural)]
pub enum Color {
    Yellow,
    White,
    Black,
    DarkGray,
}

/// How to draw the frame of a widget.
#[derive(Clone, Debug)]
pub struct Frame {
    pub borders: bool,
    pub title: String,
    pub color: Color,
}

/// A container of widgets.
pub struct Container {
    pub title: String,
    pub direction: Direction,
    pub can_be_in_focus: bool,
    pub children: Vec<Component>,
    pub borders: bool,
}

/// A text.
pub struct Label {
    pub text: String,
    pub border: bool,
}

/// A field holding a number, bound to the simulation setting `id`.
pub struct Input {
    id: String,
    title: String,
    value: Vec<char>,
    cursor: usize,
    editing: bool,
    border: bool,
}

/// A button.
pub struct Button {
    pub action: ButtonAction,
}

/// A field showing the key bound to the action `action_id`, which takes a
/// new key when edited.
pub struct KeybindInput {
    pub action_id: String,
    pub label: String,
    pub editing: bool,
}

/// A widget.
pub enum Component {
    Container(Container),
    Label(Label),
    Input(Input),
    Button(Button),
    KeybindInput(KeybindInput),
}

/// Whether the widget at `focus_index` under a parent is focused: it is the
/// first index of the focus path and its parent is focused.
pub open spec fn is_focused_spec(focus_stack: Seq<usize>, focus_index: usize, has_focused_parent: bool) -> bool {
    focus_stack.len() > 0 && focus_stack[0] == focus_index && has_focused_parent
}

/// Whether the widget at `focus_index` under a parent is focused.
pub fn is_focused(focus_stack: &Vec<usize>, focus_index: usize, has_focused_parent: bool) -> (r: bool)
    ensures
        r == is_focused_spec(focus_stack@, focus_index, has_focused_parent),
{
    focus_stack.len() > 0 && focus_stack[0] == focus_index && has_focused_parent
}

/// The focus path handed to the children of a widget: the path without its
/// first index.
pub fn child_focus_stack(focus_stack: &Vec<usize>) -> (r: Vec<usize>)
    ensures
        focus_stack.len() > 0 ==> r@ == focus_stack@.subrange(1, focus_stack.len() as int),
        focus_stack.len() == 0 ==> r@ == Seq::<usize>::empty(),
{
    let mut r: Vec<usize> = Vec::new();
    if focus_stack.len() > 0 {
        let mut i: usize = 1;
        while i < focus_stack.len()
            invariant
                1 <= i <= focus_stack.len(),
                r@ == focus_stack@.subrange(1, i as int),
            decreases focus_stack.len() - i,
        {
            r.push(focus_stack[i]);
            proof {
                assert(r@ =~= focus_stack@.subrange(1, i + 1));
            }
            i = i + 1;
        }
    }
    proof {
        if focus_stack.len() == 0 {
            assert(r@ =~= Seq::<usize>::empty());
        }
    }
    r
}

/// Whether a widget can take the focus.
pub open spec fn focusable(c: Component) -> bool {
    match c {
        Component::Container(k) => k.can_be_in_focus,
        Component::Label(_) => false,
        _ => true,
    }
}

/// The indexes of the children among the first `n` that can take the focus,
/// in order.
pub open spec fn focusable_prefix(children: Seq<Component>, n: int) -> Seq<usize>
    decreases n,
{
    if n <= 0 {
        Seq::empty()
    } else if focusable(children[n - 1]) {
        focusable_prefix(children, n - 1).push((n - 1) as usize)
    } else {
        focusable_prefix(children, n - 1)
    }
}

/// The indexes of the children that can take the focus, in order.
pub open spec fn focusable_indexes_spec(c: Component) -> Seq<usize> {
    match c {
        Component::Container(k) => focusable_prefix(k.children@, k.children@.len() as int),
        _ => Seq::empty(),
    }
}

/// The number of places the focus can move to within a widget.
pub open spec fn children_count_spec(c: Component) -> nat {
    match c {
        Component::Container(k) => focusable_prefix(k.children@, k.children@.len() as int).len(),
        Component::Label(_) => 0,
        _ => 1,
    }
}

/// The indexes in `focusable_prefix` are increasing indexes of focusable
/// children.
pub proof fn lemma_focusable_prefix(children: Seq<Component>, n: int)
    requires
        0 <= n <= children.len(),
        children.len() <= usize::MAX,
    ensures
        forall|i: int|
            0 <= i < focusable_prefix(children, n).len() ==> (focusable_prefix(children, n)[i]
                as int) < n && focusable(children[focusable_prefix(children, n)[i] as int]),
        focusable_prefix(children, n).len() <= n,
    decreases n,
{
    if n > 0 {
        lemma_focusable_prefix(children, n - 1);
        let p = focusable_prefix(children, n - 1);
        let q = focusable_prefix(children, n);
        assert forall|i: int| 0 <= i < q.len() implies (q[i] as int) < n && focusable(
            children[q[i] as int],
        ) by {
            if i < p.len() {
                assert(q[i] == p[i]);
            } else {
                assert(focusable(children[n - 1]));
                assert(q == p.push((n - 1) as usize));
            }
        }
    }
}

/// The indexes in `focusable_prefix` are strictly increasing.
pub proof fn lemma_focusable_increasing(children: Seq<Component>, n: int)
    requires
        0 <= n <= children.len(),
        children.len() <= usize::MAX,
    ensures
        forall|i: int, j: int|
            0 <= i < j < focusable_prefix(children, n).len() ==> #[trigger] focusable_prefix(
                children,
                n,
            )[i] < #[trigger] focusable_prefix(children, n)[j],
    decreases n,
{
    if n > 0 {
        lemma_focusable_increasing(children, n - 1);
        lemma_focusable_prefix(children, n - 1);
        let p = focusable_prefix(children, n - 1);
        let q = focusable_prefix(children, n);
        assert forall|i: int, j: int| 0 <= i < j < q.len() implies #[trigger] q[i] < #[trigger] q[j] by {
            if j < p.len() {
                assert(q[i] == p[i] && q[j] == p[j]);
            } else {
                assert(q == p.push((n - 1) as usize));
                assert(q[i] == p[i]);
            }
        }
    }
}

impl Input {
    /// The digits stay digits, and the cursor stays within them.
    #[verifier::type_invariant]
    spec fn inv(self) -> bool {
        &&& self.cursor <= self.value.len()
        &&& forall|i: int| 0 <= i < self.value.len() ==> is_digit(#[trigger] self.value@[i])
    }

    /// The setting the field is bound to.
    pub closed spec fn id_spec(self) -> Seq<char> {
        self.id@
    }

    /// Whether the field has a border.
    pub closed spec fn border_spec(self) -> bool {
        self.border
    }

    /// The title of the field.
    pub closed spec fn title_spec(self) -> Seq<char> {
        self.title@
    }

    /// The digits of the field.
    pub closed spec fn digits(self) -> Seq<char> {
        self.value@
    }

    /// The position of the cursor among the digits.
    pub closed spec fn cursor_spec(self) -> nat {
        self.cursor as nat
    }

    /// Whether the field is being edited.
    pub closed spec fn editing_spec(self) -> bool {
        self.editing
    }

    /// The number the field holds: that of its digits, or 0 for none or
    /// for a number above `i32::MAX`.
    pub open spec fn value_spec(self) -> int {
        if self.digits().len() > 0 && digits_value(self.digits()) <= i32::MAX {
            digits_value(self.digits())
        } else {
            0
        }
    }

    /// The field for the setting `id`, holding its value (0 where it is not
    /// set), with the cursor after the last digit.
    pub fn new(id: String, state: &AppState) -> (r: Self)
        ensures
            r.id_spec() == id@,
            state.simulations_settings@.contains_key(id@) ==> r.digits() == decimal(
                state.simulations_settings@[id@] as nat,
            ),
            !state.simulations_settings@.contains_key(id@) ==> r.digits() == seq!['0'],
            r.cursor_spec() == r.digits().len(),
            !r.editing_spec(),
            r.border_spec(),
            r.title_spec() == Seq::<char>::empty(),
    {
        let value = match state.simulations_settings.get(&id) {
            Some(v) => decimal_chars(*v),
            None => vec!['0'],
        };
        proof {
            if state.simulations_settings@.contains_key(id@) {
                lemma_decimal_digits(state.simulations_settings@[id@] as nat);
            }
        }
        let cursor = value.len();
        Input { id, title: String::new(), value, cursor, editing: false, border: true }
    }

    /// The field with a title.
    pub fn with_title(self, title: String) -> (r: Self)
        ensures
            r.id_spec() == self.id_spec(),
            r.digits() == self.digits(),
            r.cursor_spec() == self.cursor_spec(),
            r.editing_spec() == self.editing_spec(),
            r.border_spec() == self.border_spec(),
            r.title_spec() == title@,
    {
        proof {
            use_type_invariant(&self);
        }
        Input { title, ..self }
    }

    /// The number the field holds.
    pub fn get_value(&self) -> (v: i32)
        ensures
            v == self.value_spec(),
            v >= 0,
    {
        proof {
            use_type_invariant(self);
            self.lemma_value_nonneg();
        }
        match parse_i32(&self.value) {
            Some(v) => v,
            None => 0,
        }
    }

    proof fn lemma_value_nonneg(self)
        requires
            forall|i: int| 0 <= i < self.value.len() ==> is_digit(#[trigger] self.value@[i]),
        ensures
            digits_value(self.digits()) >= 0,
    {
        lemma_digits_value_nonneg(self.value@);
    }

    /// Puts the digit `ch` at the cursor, moves the cursor after it, and
    /// stores the new number in the setting of the field.
    pub fn insert_char(&mut self, ch: char, state: &mut AppState)
        requires
            is_digit(ch),
        ensures
            final(self).digits() == old(self).digits().insert(old(self).cursor_spec() as int, ch),
            final(self).cursor_spec() == old(self).cursor_spec() + 1,
            final(self).id_spec() == old(self).id_spec(),
            final(self).editing_spec() == old(self).editing_spec(),
            final(self).title_spec() == old(self).title_spec(),
            final(self).border_spec() == old(self).border_spec(),
            final(state).simulations_settings@ == old(state).simulations_settings@.insert(
                old(self).id_spec(),
                final(self).value_spec() as usize,
            ),
            final(state).key_bindings@ == old(state).key_bindings@,
            final(state).screen == old(state).screen,
            final(state).error_message == old(state).error_message,
    {
        proof {
            use_type_invariant(&*self);
        }
        let mut value = self.value.clone();
        proof {
            assert(value@ =~= self.value@);
        }
        value.insert(self.cursor, ch);
        self.value = value;
        self.cursor = self.cursor + 1;
        let v = self.get_value();
        state.simulations_settings.insert(self.id.clone(), v as usize);
    }

    /// Removes the digit before the cursor and moves the cursor back, then
    /// stores the new number; nothing happens at the start.
    pub fn delete_char(&mut self, state: &mut AppState)
        ensures
            old(self).cursor_spec() > 0 ==> final(self).digits() == old(self).digits().remove(
                old(self).cursor_spec() - 1,
            ) && final(self).cursor_spec() == old(self).cursor_spec() - 1
                && final(state).simulations_settings@ == old(state).simulations_settings@.insert(
                old(self).id_spec(),
                final(self).value_spec() as usize,
            ),
            old(self).cursor_spec() == 0 ==> final(self).digits() == old(self).digits()
                && final(self).cursor_spec() == 0 && final(state).simulations_settings@ == old(
                state).simulations_settings@,
            final(self).id_spec() == old(self).id_spec(),
            final(self).editing_spec() == old(self).editing_spec(),
            final(self).title_spec() == old(self).title_spec(),
            final(self).border_spec() == old(self).border_spec(),
            final(state).key_bindings@ == old(state).key_bindings@,
            final(state).screen == old(state).screen,
            final(state).error_message == old(state).error_message,
    {
        proof {
            use_type_invariant(&*self);
        }
        if self.cursor > 0 {
            self.cursor = self.cursor - 1;
            let mut value = self.value.clone();
            proof {
                assert(value@ =~= self.value@);
            }
            value.remove(self.cursor);
            self.value = value;
            let v = self.get_value();
            state.simulations_settings.insert(self.id.clone(), v as usize);
        }
    }

    /// Moves the cursor one place back, if it can.
    pub fn shift_left(&mut self)
        ensures
            final(self).cursor_spec() == (if old(self).cursor_spec() > 0 {
                old(self).cursor_spec() - 1
            } else {
                0int
            }),
            final(self).digits() == old(self).digits(),
            final(self).id_spec() == old(self).id_spec(),
            final(self).editing_spec() == old(self).editing_spec(),
            final(self).title_spec() == old(self).title_spec(),
            final(self).border_spec() == old(self).border_spec(),
    {
        proof {
            use_type_invariant(&*self);
        }
        if self.cursor > 0 {
            self.cursor -= 1;
        }
    }

    /// Moves the cursor one place forward, if it can.
    pub fn shift_right(&mut self)
        ensures
            final(self).cursor_spec() == (if old(self).cursor_spec() < old(self).digits().len() {
                old(self).cursor_spec() + 1
            } else {
                old(self).cursor_spec()
            }),
            final(self).digits() == old(self).digits(),
            final(self).id_spec() == old(self).id_spec(),
            final(self).editing_spec() == old(self).editing_spec(),
            final(self).title_spec() == old(self).title_spec(),
            final(self).border_spec() == old(self).border_spec(),
    {
        proof {
            use_type_invariant(&*self);
        }
        if self.cursor < self.value.len() {
            self.cursor += 1;
        }
    }

    /// The digits and cursor are unchanged.
    pub open spec fn same_text(a: Input, b: Input) -> bool {
        b.digits() == a.digits() && b.cursor_spec() == a.cursor_spec()
    }

    /// What handling `ev` does to the field `a`, giving `b`, and to the
    /// state `s0`, giving `s1`.
    pub open spec fn event_effect(a: Input, b: Input, s0: AppState, s1: AppState, ev: InputEvent) -> bool {
        &&& b.id_spec() == a.id_spec()
        &&& b.title_spec() == a.title_spec()
        &&& b.border_spec() == a.border_spec()
        &&& b.editing_spec() == !ev.is_press_of(KeyCode::Esc)
        &&& s1.key_bindings@ == s0.key_bindings@
        &&& s1.screen == s0.screen
        &&& match ev.pressed_key() {
            Some(KeyCode::Char(c)) => if is_digit(c) {
                &&& b.digits() == a.digits().insert(a.cursor_spec() as int, c)
                &&& b.cursor_spec() == a.cursor_spec() + 1
                &&& s1.simulations_settings@ == s0.simulations_settings@.insert(
                    a.id_spec(),
                    b.value_spec() as usize,
                )
                &&& s1.error_message == s0.error_message
            } else {
                &&& Self::same_text(a, b)
                &&& s1.simulations_settings@ == s0.simulations_settings@
                &&& s1.error_message@ == "разрешены только цифры"@
            },
            Some(KeyCode::Backspace) => {
                &&& a.cursor_spec() > 0 ==> b.digits() == a.digits().remove(a.cursor_spec() - 1)
                    && b.cursor_spec() == a.cursor_spec() - 1 && s1.simulations_settings@
                    == s0.simulations_settings@.insert(a.id_spec(), b.value_spec() as usize)
                &&& a.cursor_spec() == 0 ==> Self::same_text(a, b) && s1.simulations_settings@
                    == s0.simulations_settings@
                &&& s1.error_message == s0.error_message
            },
            Some(KeyCode::Left) => {
                &&& b.digits() == a.digits()
                &&& b.cursor_spec() == (if a.cursor_spec() > 0 {
                    a.cursor_spec() - 1
                } else {
                    0int
                })
                &&& s1.simulations_settings@ == s0.simulations_settings@
                &&& s1.error_message == s0.error_message
            },
            Some(KeyCode::Right) => {
                &&& b.digits() == a.digits()
                &&& b.cursor_spec() == (if a.cursor_spec() < a.digits().len() {
                    a.cursor_spec() + 1
                } else {
                    a.cursor_spec()
                })
                &&& s1.simulations_settings@ == s0.simulations_settings@
                &&& s1.error_message == s0.error_message
            },
            Some(KeyCode::Esc) => {
                &&& Self::same_text(a, b)
                &&& s1.simulations_settings@ == s0.simulations_settings@
                &&& s1.error_message == s0.error_message
            },
            Some(_) => {
                &&& Self::same_text(a, b)
                &&& s1.simulations_settings@ == s0.simulations_settings@
                &&& s1.error_message@ == "разрешены только цифры"@
            },
            None => {
                &&& Self::same_text(a, b)
                &&& s1.simulations_settings@ == s0.simulations_settings@
                &&& s1.error_message == s0.error_message
            },
        }
    }

    /// Handles an event: the field is then being edited; a pressed digit is
    /// put at the cursor, Backspace removes a digit, Left and Right move the
    /// cursor, Esc ends the editing, and any other pressed key leaves a
    /// message that only digits are allowed.
    pub fn handle_event(&mut self, ev: &InputEvent, state: &mut AppState) -> (f: Feedback)
        ensures
            f == Feedback::Nothing,
            Self::event_effect(*old(self), *final(self), *old(state), *final(state), *ev),
    {
        proof {
            use_type_invariant(&*self);
        }
        self.editing = true;
        if let InputEvent::Key(key) = ev {
            if key.kind == KeyEventKind::Press {
                match key.code {
                    KeyCode::Char(ch) => {
                        if '0' <= ch && ch <= '9' {
                            self.insert_char(ch, state);
                        } else {
                            state.error_message = owned("разрешены только цифры");
                        }
                    },
                    KeyCode::Backspace => {
                        self.delete_char(state);
                    },
                    KeyCode::Left => {
                        self.shift_left();
                    },
                    KeyCode::Right => {
                        self.shift_right();
                    },
                    KeyCode::Esc => {
                        self.editing = false;
                    },
                    _ => {
                        state.error_message = owned("разрешены только цифры");
                    },
                }
            }
        }
        Feedback::Nothing
    }
}

/// Typing a digit into a field and then pressing Backspace gives back its
/// digits and cursor, and stores the number it held before.
pub proof fn lemma_backspace_undoes_digit(
    a: Input,
    b: Input,
    c: Input,
    s0: AppState,
    s1: AppState,
    s2: AppState,
    d: char,
    typed: InputEvent,
    erased: InputEvent,
)
    requires
        a.cursor_spec() <= a.digits().len(),
        is_digit(d),
        typed.is_press_of(KeyCode::Char(d)),
        erased.is_press_of(KeyCode::Backspace),
        Input::event_effect(a, b, s0, s1, typed),
        Input::event_effect(b, c, s1, s2, erased),
    ensures
        c.digits() == a.digits(),
        c.cursor_spec() == a.cursor_spec(),
        c.value_spec() == a.value_spec(),
        s2.simulations_settings@ == s0.simulations_settings@.insert(
            a.id_spec(),
            a.value_spec() as usize,
        ),
        s2.key_bindings@ == s0.key_bindings@,
{
    assert(a.digits().insert(a.cursor_spec() as int, d).remove(a.cursor_spec() as int) =~= a.digits());
    assert(s2.simulations_settings@ =~= s0.simulations_settings@.insert(
        a.id_spec(),
        a.value_spec() as usize,
    ));
}

/// Pressing Enter on a key-binding field and then a key binds that key,
/// by its name, to the field's action, and ends the editing.
pub proof fn lemma_enter_then_key_binds(
    a: KeybindInput,
    b: KeybindInput,
    c: KeybindInput,
    s0: AppState,
    s1: AppState,
    s2: AppState,
    enter: InputEvent,
    pressed: InputEvent,
    f1: Feedback,
    f2: Feedback,
    k: KeyCode,
)
    requires
        !a.editing,
        enter.is_press_of(KeyCode::Enter),
        pressed.pressed_key() == Some(k),
        KeybindInput::event_effect(a, b, s0, s1, enter, f1),
        KeybindInput::event_effect(b, c, s1, s2, pressed, f2),
    ensures
        b.editing,
        f1 == Feedback::Nothing,
        f2 == Feedback::Esc,
        !c.editing,
        s2.key_bindings@.contains_key(a.action_id@),
        s2.key_bindings@[a.action_id@]@ == key_name_spec(k),
        binding_shown(s2, a.action_id@) == key_name_spec(k),
        forall|id: Seq<char>|
            id != a.action_id@ ==> #[trigger] s2.key_bindings@.contains_key(id)
                == s0.key_bindings@.contains_key(id) && (s0.key_bindings@.contains_key(id)
                ==> s2.key_bindings@[id] == s0.key_bindings@[id]),
{
}

/// `String` from its characters (`Iterator::collect`).
#[verifier::external_body]
fn chars_to_string(v: &Vec<char>) -> (s: String)
    ensures
        s@ == v@,
{
    v.iter().collect()
}

impl Input {
    /// The title of the field.
    pub fn title(&self) -> (t: &String)
        ensures
            t@ == self.title_spec(),
    {
        &self.title
    }

    /// The digits of the field, as a string.
    pub fn value_string(&self) -> (s: String)
        ensures
            s@ == self.digits(),
    {
        chars_to_string(&self.value)
    }

    /// Whether the field is being edited.
    pub fn editing(&self) -> (e: bool)
        ensures
            e == self.editing_spec(),
    {
        self.editing
    }

    /// Whether the field has a border.
    pub fn border(&self) -> (b: bool)
        ensures
            b == self.border_spec(),
    {
        self.border
    }

    /// How to draw the frame of the field: yellow while it is the end of the
    /// focus path or being edited, white otherwise.
    pub fn frame(&self, focus_stack: &Vec<usize>, focus_index: usize, has_focused_parent: bool) -> (f: Frame)
        ensures
            f.borders == self.border_spec(),
            f.title@ == self.title_spec(),
            f.color == (if (is_focused_spec(focus_stack@, focus_index, has_focused_parent)
                && focus_stack@.len() == 1) || self.editing_spec() {
                Color::Yellow
            } else {
                Color::White
            }),
    {
        let focused = is_focused(focus_stack, focus_index, has_focused_parent);
        let color = if focused && focus_stack.len() == 1 || self.editing {
            Color::Yellow
        } else {
            Color::White
        };
        Frame { borders: self.border, title: self.title.clone(), color }
    }

    /// The text of the field while it is edited, in three parts: the digits
    /// before the cursor, the character under the cursor (a space at the
    /// end), and the digits after it.
    pub fn cursor_spans(&self) -> (r: (Vec<char>, char, Vec<char>))
        ensures
            r.0@ == self.digits().subrange(0, self.cursor_spec() as int),
            r.1 == (if self.cursor_spec() < self.digits().len() {
                self.digits()[self.cursor_spec() as int]
            } else {
                ' '
            }),
            self.cursor_spec() + 1 < self.digits().len() ==> r.2@ == self.digits().subrange(
                self.cursor_spec() + 1int,
                self.digits().len() as int,
            ),
            self.cursor_spec() + 1 >= self.digits().len() ==> r.2@ == Seq::<char>::empty(),
    {
        proof {
            use_type_invariant(self);
        }
        let pos = self.cursor;
        let mut before: Vec<char> = Vec::new();
        let mut i: usize = 0;
        while i < pos
            invariant
                pos == self.cursor,
                pos <= self.value.len(),
                i <= pos,
                before@ == self.value@.subrange(0, i as int),
            decreases pos - i,
        {
            before.push(self.value[i]);
            proof {
                assert(before@ =~= self.value@.subrange(0, i + 1));
            }
            i = i + 1;
        }
        let at = if pos < self.value.len() {
            self.value[pos]
        } else {
            ' '
        };
        let mut after: Vec<char> = Vec::new();
        if pos < self.value.len() && pos + 1 < self.value.len() {
            let mut j: usize = pos + 1;
            while j < self.value.len()
                invariant
                    pos == self.cursor,
                    pos + 1 <= j <= self.value.len(),
                    after@ == self.value@.subrange(pos + 1, j as int),
                decreases self.value.len() - j,
            {
                after.push(self.value[j]);
                proof {
                    assert(after@ =~= self.value@.subrange(pos + 1, j + 1));
                }
                j = j + 1;
            }
        }
        proof {
            if pos + 1 >= self.value.len() {
                assert(after@ =~= Seq::<char>::empty());
            }
        }
        (before, at, after)
    }
}

impl Label {
    /// How to draw the frame of a label: dark grey.
    pub fn frame(&self) -> (f: Frame)
        ensures
            f.borders == self.border,
            f.title@ == Seq::<char>::empty(),
            f.color == Color::DarkGray,
    {
        Frame { borders: self.border, title: String::new(), color: Color::DarkGray }
    }
}

impl Container {
    /// An empty horizontal container without borders or title that can
    /// take the focus.
    pub fn new() -> (c: Self)
        ensures
            c.title@ == Seq::<char>::empty(),
            c.direction == Direction::Horizontal,
            c.can_be_in_focus,
            c.children@.len() == 0,
            !c.borders,
    {
        Container {
            title: String::new(),
            direction: Direction::Horizontal,
            can_be_in_focus: true,
            children: Vec::new(),
            borders: false,
        }
    }

    /// Adds a child after the others.
    pub fn add_child(&mut self, child: Component)
        ensures
            final(self).children@ == old(self).children@.push(child),
            final(self).title == old(self).title,
            final(self).direction == old(self).direction,
            final(self).can_be_in_focus == old(self).can_be_in_focus,
            final(self).borders == old(self).borders,
    {
        self.children.push(child);
    }

    /// How to draw the frame of the container: its title only while it is
    /// focused, yellow while it is the end of the focus path, black
    /// otherwise.
    pub fn frame(&self, focus_stack: &Vec<usize>, focus_index: usize, has_focused_parent: bool) -> (f: Frame)
        ensures
            f.borders == self.borders,
            f.title@ == (if is_focused_spec(focus_stack@, focus_index, has_focused_parent) {
                self.title@
            } else {
                Seq::<char>::empty()
            }),
            f.color == (if is_focused_spec(focus_stack@, focus_index, has_focused_parent)
                && focus_stack@.len() == 1 {
                Color::Yellow
            } else {
                Color::Black
            }),
    {
        let focused = is_focused(focus_stack, focus_index, has_focused_parent);
        let title = if focused {
            self.title.clone()
        } else {
            String::new()
        };
        let color = if focused && focus_stack.len() == 1 {
            Color::Yellow
        } else {
            Color::Black
        };
        Frame { borders: self.borders, title, color }
    }
}

impl Button {
    /// How to draw the frame of a button: yellow while focused, white
    /// otherwise.
    pub fn frame(&self, focus_stack: &Vec<usize>, focus_index: usize, has_focused_parent: bool) -> (f: Frame)
        ensures
            f.borders,
            f.title@ == Seq::<char>::empty(),
            f.color == (if is_focused_spec(focus_stack@, focus_index, has_focused_parent) {
                Color::Yellow
            } else {
                Color::White
            }),
    {
        let color = if is_focused(focus_stack, focus_index, has_focused_parent) {
            Color::Yellow
        } else {
            Color::White
        };
        Frame { borders: true, title: String::new(), color }
    }

    /// Handles an event: a pressed Enter fires the button, which asks to
    /// leave the widget, switches to the simulation screen for a start
    /// button, and hands its action on to be carried out.
    pub fn handle_event(&mut self, ev: &InputEvent, state: &mut AppState) -> (r: (
        Feedback,
        Option<ButtonAction>,
    ))
        ensures
            ev.is_press_of(KeyCode::Enter) ==> r == (Feedback::Esc, Some(old(self).action)),
            !ev.is_press_of(KeyCode::Enter) ==> r == (Feedback::Nothing, None::<ButtonAction>),
            ev.is_press_of(KeyCode::Enter) && old(self).action == ButtonAction::StartSimulation
                ==> final(state).screen == Screen::Simulation,
            !(ev.is_press_of(KeyCode::Enter) && old(self).action == ButtonAction::StartSimulation)
                ==> final(state).screen == old(state).screen,
            final(state).key_bindings@ == old(state).key_bindings@,
            final(state).simulations_settings@ == old(state).simulations_settings@,
            final(state).error_message == old(state).error_message,
            *final(self) == *old(self),
    {
        if ev.is_press(KeyCode::Enter) {
            if self.action == ButtonAction::StartSimulation {
                state.screen = Screen::Simulation;
            }
            return (Feedback::Esc, Some(self.action));
        }
        (Feedback::Nothing, None)
    }
}

/// The name shown for the key bound to `action_id`: its name, or `?` where
/// none is bound.
pub open spec fn binding_shown(state: AppState, action_id: Seq<char>) -> Seq<char> {
    if state.key_bindings@.contains_key(action_id) {
        state.key_bindings@[action_id]@
    } else {
        "?"@
    }
}

impl KeybindInput {
    /// The field for `action_id`, with the label `label`, not being edited.
    pub fn new(action_id: String, label: String) -> (k: Self)
        ensures
            k.action_id == action_id,
            k.label == label,
            !k.editing,
    {
        KeybindInput { action_id, label, editing: false }
    }

    /// The name of the key bound to the action, or `?`.
    pub fn current_binding(&self, state: &AppState) -> (s: String)
        ensures
            s@ == binding_shown(*state, self.action_id@),
    {
        match state.key_bindings.get(&self.action_id) {
            Some(name) => name.clone(),
            None => owned("?"),
        }
    }

    /// Binds the key named `key_name` to the action.
    pub fn set_binding(&self, key_name: String, state: &mut AppState)
        ensures
            final(state).key_bindings@ == old(state).key_bindings@.insert(self.action_id@, key_name),
            final(state).simulations_settings@ == old(state).simulations_settings@,
            final(state).screen == old(state).screen,
            final(state).error_message == old(state).error_message,
    {
        state.key_bindings.insert(self.action_id.clone(), key_name);
    }

    /// How to draw the frame of the field: bordered and yellow while
    /// focused or edited, borderless and black otherwise.
    pub fn frame(&self, focus_stack: &Vec<usize>, focus_index: usize, has_focused_parent: bool) -> (f: Frame)
        ensures
            f.borders == (is_focused_spec(focus_stack@, focus_index, has_focused_parent)
                || self.editing),
            f.title@ == Seq::<char>::empty(),
            f.color == (if is_focused_spec(focus_stack@, focus_index, has_focused_parent)
                || self.editing {
                Color::Yellow
            } else {
                Color::Black
            }),
    {
        let lit = is_focused(focus_stack, focus_index, has_focused_parent) || self.editing;
        let color = if lit {
            Color::Yellow
        } else {
            Color::Black
        };
        Frame { borders: lit, title: String::new(), color }
    }

    /// The text shown beside the label: an invitation to press a key while
    /// edited, the bound key otherwise.
    pub fn shown_value(&self, state: &AppState) -> (s: String)
        ensures
            self.editing ==> s@ == "press key"@,
            !self.editing ==> s@ == binding_shown(*state, self.action_id@),
    {
        if self.editing {
            owned("press key")
        } else {
            self.current_binding(state)
        }
    }

    /// What handling `ev` does to the field `a`, giving `b`, and to the
    /// state `s0`, giving `s1`, with the feedback `f`.
    pub open spec fn event_effect(
        a: KeybindInput,
        b: KeybindInput,
        s0: AppState,
        s1: AppState,
        ev: InputEvent,
        f: Feedback,
    ) -> bool {
        &&& b.action_id == a.action_id
        &&& b.label == a.label
        &&& s1.simulations_settings@ == s0.simulations_settings@
        &&& s1.screen == s0.screen
        &&& if a.editing && ev.pressed_key() is Some {
            &&& f == Feedback::Esc
            &&& !b.editing
            &&& s1.key_bindings@ == s0.key_bindings@.insert(
                a.action_id@,
                s1.key_bindings@[a.action_id@],
            )
            &&& s1.key_bindings@[a.action_id@]@ == key_name_spec(ev.pressed_key()->0)
            &&& s1.error_message@ == Seq::<char>::empty()
        } else {
            &&& f == Feedback::Nothing
            &&& s1.key_bindings@ == s0.key_bindings@
            &&& s1.error_message == s0.error_message
            &&& b.editing == (a.editing || ev.is_press_of(KeyCode::Enter))
        }
    }

    /// Handles an event: while edited, a pressed key is bound to the action,
    /// the editing ends, the message is cleared and the field asks to be
    /// left; otherwise a pressed Enter starts the editing.
    pub fn handle_event(&mut self, ev: &InputEvent, state: &mut AppState) -> (f: Feedback)
        ensures
            Self::event_effect(*old(self), *final(self), *old(state), *final(state), *ev, f),
    {
        if let InputEvent::Key(key) = ev {
            if key.kind == KeyEventKind::Press {
                if self.editing {
                    let canonical = canonical_key_name(key.code);
                    self.set_binding(canonical, state);
                    self.editing = false;
                    state.error_message = String::new();
                    return Feedback::Esc;
                } else if key.code == KeyCode::Enter {
                    self.editing = true;
                }
            }
        }
        Feedback::Nothing
    }
}

/// What handling `ev` does to the button `b` and to the state `s0`, giving
/// `s1`, with the result `r`.
pub open spec fn button_effect(
    b: Button,
    s0: AppState,
    s1: AppState,
    ev: InputEvent,
    r: (Feedback, Option<ButtonAction>),
) -> bool {
    &&& ev.is_press_of(KeyCode::Enter) ==> r == (Feedback::Esc, Some(b.action))
    &&& !ev.is_press_of(KeyCode::Enter) ==> r == (Feedback::Nothing, None::<ButtonAction>)
    &&& if ev.is_press_of(KeyCode::Enter) && b.action == ButtonAction::StartSimulation {
        s1.screen == Screen::Simulation
    } else {
        s1.screen == s0.screen
    }
    &&& s1.key_bindings@ == s0.key_bindings@
    &&& s1.simulations_settings@ == s0.simulations_settings@
    &&& s1.error_message == s0.error_message
}

/// What handling `ev` does to the widget `a`, giving `b`, and to the state
/// `s0`, giving `s1`, with the result `r`: containers and labels ignore
/// events.
pub open spec fn component_effect(
    a: Component,
    b: Component,
    s0: AppState,
    s1: AppState,
    ev: InputEvent,
    r: (Feedback, Option<ButtonAction>),
) -> bool {
    match a {
        Component::Input(i) => b matches Component::Input(j) && r == (
            Feedback::Nothing,
            None::<ButtonAction>,
        ) && Input::event_effect(i, j, s0, s1, ev),
        Component::Button(x) => b == a && button_effect(x, s0, s1, ev, r),
        Component::KeybindInput(k) => b matches Component::KeybindInput(l) && r.1 is None
            && KeybindInput::event_effect(k, l, s0, s1, ev, r.0),
        _ => b == a && r == (Feedback::Nothing, None::<ButtonAction>) && s1 == s0,
    }
}

impl Component {
    /// Whether the widget can take the focus.
    pub fn can_be_in_focus(&self) -> (a: AbilityToFocus)
        ensures
            (a == AbilityToFocus::CanBeInFocus) == focusable(*self),
    {
        match self {
            Component::Container(c) => if c.can_be_in_focus {
                AbilityToFocus::CanBeInFocus
            } else {
                AbilityToFocus::CantBeInFocus
            },
            Component::Label(_) => AbilityToFocus::CantBeInFocus,
            _ => AbilityToFocus::CanBeInFocus,
        }
    }

    /// The indexes of the children that can take the focus, in order.
    pub fn get_focusable_indexes(&self) -> (v: Vec<usize>)
        ensures
            v@ == focusable_indexes_spec(*self),
    {
        match self {
            Component::Container(c) => {
                let mut v: Vec<usize> = Vec::new();
                let mut i: usize = 0;
                while i < c.children.len()
                    invariant
                        i <= c.children.len(),
                        v@ == focusable_prefix(c.children@, i as int),
                    decreases c.children.len() - i,
                {
                    if c.children[i].can_be_in_focus() != AbilityToFocus::CantBeInFocus {
                        v.push(i);
                    }
                    i = i + 1;
                }
                v
            },
            _ => Vec::new(),
        }
    }

    /// The number of places the focus can move to within the widget.
    pub fn get_children_count(&self) -> (n: usize)
        ensures
            n == children_count_spec(*self),
    {
        match self {
            Component::Container(c) => {
                let mut n: usize = 0;
                let mut i: usize = 0;
                while i < c.children.len()
                    invariant
                        i <= c.children.len(),
                        n == focusable_prefix(c.children@, i as int).len(),
                        n <= i,
                    decreases c.children.len() - i,
                {
                    proof {
                        lemma_focusable_prefix(c.children@, i + 1);
                    }
                    if c.children[i].can_be_in_focus() != AbilityToFocus::CantBeInFocus {
                        n = n + 1;
                    }
                    i = i + 1;
                }
                n
            },
            Component::Label(_) => 0,
            _ => 1,
        }
    }

    /// Handles an event; a fired button hands on its action.
    pub fn handle_event(&mut self, ev: &InputEvent, state: &mut AppState) -> (r: (
        Feedback,
        Option<ButtonAction>,
    ))
        ensures
            component_effect(*old(self), *final(self), *old(state), *final(state), *ev, r),
    {
        match self {
            Component::Input(i) => {
                let f = i.handle_event(ev, state);
                (f, None)
            },
            Component::Button(b) => b.handle_event(ev, state),
            Component::KeybindInput(k) => {
                let f = k.handle_event(ev, state);
                (f, None)
            },
            _ => (Feedback::Nothing, None),
        }
    }
}

/// The digits of a number are worth a nonnegative amount.
pub proof fn lemma_digits_value_nonneg(s: Seq<char>)
    requires
        forall|i: int| 0 <= i < s.len() ==> is_digit(#[trigger] s[i]),
    ensures
        digits_value(s) >= 0,
    decreases s.len(),
{
    if s.len() > 0 {
        lemma_digits_value_nonneg(s.drop_last());
        assert(is_digit(s[s.len() - 1]));
    }
}

} // verus!
