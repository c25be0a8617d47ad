use starframe::input::{AxisQuery, Button, ButtonQuery, ElementState, Input, Key, MouseButton};

/// A key pressed on this tick matches the default query; a tick later it is held.
#[test]
fn key_press_then_hold() {
    let mut input = Input::new();
    let w = Key(17);
    input.track_key(w, ElementState::Pressed);
    assert!(input.button(ButtonQuery::kb(w)));
    assert!(input.button(ButtonQuery::kb(w).held()));
    assert!(!input.button(ButtonQuery::kb(w).released()));
    let s = input.get_key_state(w);
    assert_eq!(s.state, ElementState::Pressed);
    assert_eq!(s.age, 0);

    input.tick();
    assert!(!input.button(ButtonQuery::kb(w)));
    assert!(input.button(ButtonQuery::kb(w).held()));
    assert!(input.button(ButtonQuery::kb(w).held_exact(1)));
    assert!(input.button(ButtonQuery::kb(w).held_min(1)));
    assert!(!input.button(ButtonQuery::kb(w).held_min(2)));
    assert!(input.button(ButtonQuery::kb(w).held_range(1, 3)));
    assert!(!input.button(ButtonQuery::kb(w).held_max(0)));

    // other keys are untouched, only older
    let other = input.get_key_state(Key(18));
    assert_eq!(other.state, ElementState::Released);
    assert_eq!(other.age, 1);
}

/// Tracking a key in the state it already has keeps its age.
#[test]
fn repeated_key_event_keeps_age() {
    let mut input = Input::new();
    input.track_key(Key(2), ElementState::Pressed);
    input.tick();
    input.tick();
    input.track_key(Key(2), ElementState::Pressed);
    assert_eq!(input.get_key_state(Key(2)).age, 2);
    input.track_key(Key(2), ElementState::Released);
    assert!(input.button(ButtonQuery::kb(Key(2)).released()));
    assert_eq!(input.get_key_state(Key(2)).age, 0);
}

/// Mouse buttons are tracked like keys; untracked ones are ignored.
#[test]
fn mouse_buttons_are_tracked() {
    let mut input = Input::new();
    input.track_mouse_button(MouseButton::Right, ElementState::Pressed);
    input.track_mouse_button(MouseButton::Back, ElementState::Pressed);
    assert!(input.button(ButtonQuery::mouse(MouseButton::Right)));
    assert!(input.button(ButtonQuery::from(Button::Mouse(MouseButton::Right))));
    assert!(input.button(ButtonQuery::mouse(MouseButton::Left).released()));
    let s = input.get_mouse_button_state(MouseButton::Right);
    assert_eq!(s.state, ElementState::Pressed);
    input.tick();
    assert_eq!(input.get_button_state(Button::Mouse(MouseButton::Right)).age, 1);
}

/// Queries built from keys, buttons and mouse buttons agree.
#[test]
fn query_conversions() {
    let q: ButtonQuery = Key(4).into();
    assert_eq!(q.button, Button::Keyboard(Key(4)));
    assert_eq!(q.state, ElementState::Pressed);
    assert_eq!((q.min_age, q.max_age), (0, 0));
    let q: ButtonQuery = MouseButton::Middle.into();
    assert_eq!(q.button, Button::Mouse(MouseButton::Middle));
    let b: Button = Key(9).into();
    assert_eq!(ButtonQuery::new(b).button, Button::Keyboard(Key(9)));
    let r = ButtonQuery::kb(Key(1)).released();
    assert_eq!(r.state, ElementState::Released);
}

/// An axis is 1 with its positive button pressed, -1 with only its negative one, else 0.
#[test]
fn axis_prefers_positive_button() {
    let mut input = Input::new();
    let q = AxisQuery { pos_btn: Button::Keyboard(Key(1)), neg_btn: Button::Keyboard(Key(2)) };
    assert_eq!(input.axis(q), 0);
    input.track_key(Key(2), ElementState::Pressed);
    assert_eq!(input.axis(q), -1);
    input.track_key(Key(1), ElementState::Pressed);
    assert_eq!(input.axis(q), 1);
}
