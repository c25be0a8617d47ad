//! The state of the buttons of input devices, tracked so that it can be queried from one place
//! on demand.
//!
//! Every button has a state, pressed or released, and an age: the number of ticks since the
//! state last changed.
use vstd::prelude::*;

verus! {

/// This must be at least the number of key codes.
pub const KEYCODE_COUNT: usize = 200;

/// Whether a button is pressed or released.
#[derive(Clone, Copy, Debug, PartialEq, Eq, Structural)]
pub enum ElementState {
    Pressed,
    Released,
}

/// A button of the mouse.
#[derive(Clone, Copy, Debug, PartialEq, Eq, Structural)]
pub enum MouseButton {
    Left,
    Right,
    Middle,
    Back,
    Forward,
    Other(u16),
}

/// A keyboard key, by its key code.
#[derive(Clone, Copy, Debug, PartialEq, Eq, Structural)]
pub struct Key(pub usize);

/// A button on any input device (keyboard, mouse).
#[derive(Clone, Copy, Debug, PartialEq, Eq, Structural)]
pub enum Button {
    Keyboard(Key),
    Mouse(MouseButton),
}

impl From<Key> for Button {
    fn from(k: Key) -> (r: Self) {
        Button::Keyboard(k)
    }
}

impl vstd::std_specs::convert::FromSpecImpl<Key> for Button {
    open spec fn obeys_from_spec() -> bool {
        true
    }

    open spec fn from_spec(k: Key) -> Self {
        Button::Keyboard(k)
    }
}

impl From<MouseButton> for Button {
    fn from(mb: MouseButton) -> (r: Self) {
        Button::Mouse(mb)
    }
}

impl vstd::std_specs::convert::FromSpecImpl<MouseButton> for Button {
    open spec fn obeys_from_spec() -> bool {
        true
    }

    open spec fn from_spec(mb: MouseButton) -> Self {
        Button::Mouse(mb)
    }
}

/// A query for matching against the state of a button: the button, the state it must be in,
/// and the range of ages, in ticks, that it may have been in that state.
/// See [`Input::button`] for usage.
#[derive(Clone, Copy, Debug, PartialEq, Eq, Structural)]
pub struct ButtonQuery {
    pub button: Button,
    pub state: ElementState,
    pub min_age: usize,
    pub max_age: usize,
}

/// The query for `btn` having just been pressed down after last frame.
pub open spec fn just_pressed(btn: Button) -> ButtonQuery {
    ButtonQuery { button: btn, state: ElementState::Pressed, min_age: 0, max_age: 0 }
}

impl ButtonQuery {
    /// Query a button on either the mouse or the keyboard.
    ///
    /// With no additional modifiers the query checks for that key
    /// having just been pressed down after last frame.
    pub fn new(btn: Button) -> (r: Self)
        ensures
            r == just_pressed(btn),
    {
        match btn {
            Button::Keyboard(key) => Self::kb(key),
            Button::Mouse(mb) => Self::mouse(mb),
        }
    }

    /// Query a keyboard key.
    ///
    /// With no additional modifiers the query checks for that key
    /// having just been pressed down after last frame.
    pub fn kb(key: Key) -> (r: Self)
        ensures
            r == just_pressed(Button::Keyboard(key)),
    {
        Self { button: Button::Keyboard(key), state: ElementState::Pressed, min_age: 0, max_age: 0 }
    }

    /// Query a mouse button.
    ///
    /// With no additional modifiers the query checks for that button
    /// having just been pressed down after last frame.
    pub fn mouse(btn: MouseButton) -> (r: Self)
        ensures
            r == just_pressed(Button::Mouse(btn)),
    {
        Self { button: Button::Mouse(btn), state: ElementState::Pressed, min_age: 0, max_age: 0 }
    }

    /// Modify the query to look for the released state instead of pressed.
    pub fn released(self) -> (r: Self)
        ensures
            r == (ButtonQuery { state: ElementState::Released, ..self }),
    {
        let mut s = self;
        s.state = ElementState::Released;
        s
    }

    /// Match if the button has been held for any amount of time.
    ///
    /// This overwrites the parameters set by any other variant of `held_*`.
    pub fn held(self) -> (r: Self)
        ensures
            r == (ButtonQuery { min_age: 0, max_age: usize::MAX, ..self }),
    {
        let mut s = self;
        s.min_age = 0;
        s.max_age = usize::MAX;
        s
    }

    /// Match if the button has been held for exactly the given number of frames.
    ///
    /// This overwrites the parameters set by any other variant of `held_*`.
    pub fn held_exact(self, frames: usize) -> (r: Self)
        ensures
            r == (ButtonQuery { min_age: frames, max_age: frames, ..self }),
    {
        let mut s = self;
        s.min_age = frames;
        s.max_age = frames;
        s
    }

    /// Match if the button has been held for at least the given number of frames.
    ///
    /// This overwrites the parameters set by any other variant of `held_*`.
    pub fn held_min(self, frames: usize) -> (r: Self)
        ensures
            r == (ButtonQuery { min_age: frames, max_age: usize::MAX, ..self }),
    {
        let mut s = self;
        s.min_age = frames;
        s.max_age = usize::MAX;
        s
    }

    /// Match if the button has been held for at most the given number of frames.
    ///
    /// This overwrites the parameters set by any other variant of `held_*`.
    pub fn held_max(self, frames: usize) -> (r: Self)
        ensures
            r == (ButtonQuery { min_age: 0, max_age: frames, ..self }),
    {
        let mut s = self;
        s.min_age = 0;
        s.max_age = frames;
        s
    }

    /// Match if the button has been held for a number of frames between the given values.
    ///
    /// This overwrites the parameters set by any other variant of `held_*`.
    pub fn held_range(self, min_frames: usize, max_frames: usize) -> (r: Self)
        ensures
            r == (ButtonQuery { min_age: min_frames, max_age: max_frames, ..self }),
    {
        let mut s = self;
        s.min_age = min_frames;
        s.max_age = max_frames;
        s
    }
}

impl From<Button> for ButtonQuery {
    fn from(btn: Button) -> (r: Self) {
        Self::new(btn)
    }
}

impl vstd::std_specs::convert::FromSpecImpl<Button> for ButtonQuery {
    open spec fn obeys_from_spec() -> bool {
        true
    }

    open spec fn from_spec(btn: Button) -> Self {
        just_pressed(btn)
    }
}

impl From<Key> for ButtonQuery {
    fn from(k: Key) -> (r: Self) {
        Self::kb(k)
    }
}

impl vstd::std_specs::convert::FromSpecImpl<Key> for ButtonQuery {
    open spec fn obeys_from_spec() -> bool {
        true
    }

    open spec fn from_spec(k: Key) -> Self {
        just_pressed(Button::Keyboard(k))
    }
}

impl From<MouseButton> for ButtonQuery {
    fn from(mb: MouseButton) -> (r: Self) {
        Self::mouse(mb)
    }
}

impl vstd::std_specs::convert::FromSpecImpl<MouseButton> for ButtonQuery {
    open spec fn obeys_from_spec() -> bool {
        true
    }

    open spec fn from_spec(mb: MouseButton) -> Self {
        just_pressed(Button::Mouse(mb))
    }
}

/// A pair of buttons that make an axis: the positive one and the negative one.
#[derive(Clone, Copy, Debug)]
pub struct AxisQuery {
    pub pos_btn: Button,
    pub neg_btn: Button,
}

/// The state of a button (keyboard key or mouse button)
/// and time in number of ticks since last state change.
#[derive(Clone, Copy, Debug)]
pub struct AgedState {
    pub state: ElementState,
    pub age: usize,
}

/// A query made by `ButtonQuery::new`, `kb` or `mouse`, with no modifiers, matches a button
/// exactly when it was pressed on this very tick: pressed, at age 0. A button held down since
/// an earlier tick does not match it, nor does a released one. `Input::button` matches a query
/// against a button's state in just this way: same state, age within the query's range.
pub proof fn lemma_default_query_matches_fresh_press(b: Button, s: AgedState)
    ensures
        just_pressed(b).button == b,
        (s.state == just_pressed(b).state && just_pressed(b).min_age <= s.age <= just_pressed(b).max_age)
            <==> (s.state == ElementState::Pressed && s.age == 0),
{
}

impl AgedState {
    pub fn new(state: ElementState) -> (r: Self)
        ensures
            r == (AgedState { state, age: 0 }),
    {
        AgedState { state, age: 0 }
    }
}

impl Default for AgedState {
    fn default() -> (r: Self)
        ensures
            r == (AgedState { state: ElementState::Released, age: 0 }),
    {
        Self::new(ElementState::Released)
    }
}

/// The state of the tracked mouse buttons.
#[derive(Clone, Copy, Debug)]
struct MouseButtonState {
    left: AgedState,
    middle: AgedState,
    right: AgedState,
}

impl MouseButtonState {
    /// The state of `button`, if it is tracked.
    spec fn state_of(&self, button: MouseButton) -> Option<AgedState> {
        match button {
            MouseButton::Left => Some(self.left),
            MouseButton::Middle => Some(self.middle),
            MouseButton::Right => Some(self.right),
            _ => None,
        }
    }

    fn get(&self, button: MouseButton) -> (r: Option<&AgedState>)
        ensures
            match r {
                Some(s) => self.state_of(button) == Some(*s),
                None => self.state_of(button) is None,
            },
    {
        match button {
            MouseButton::Left => Some(&self.left),
            MouseButton::Middle => Some(&self.middle),
            MouseButton::Right => Some(&self.right),
            // back and forward buttons are not tracked
            MouseButton::Forward => None,
            MouseButton::Back => None,
            MouseButton::Other(_) => None,
        }
    }
}

/// Whether `button` is one whose state is tracked.
pub open spec fn is_tracked(button: Button) -> bool {
    match button {
        Button::Keyboard(key) => key.0 < KEYCODE_COUNT,
        Button::Mouse(mb) => mb is Left || mb is Middle || mb is Right,
    }
}

/// The state of the buttons of the keyboard and the mouse.
pub struct Input {
    // keyboard stored as an array addressed by key code
    keyboard: Vec<AgedState>,
    mouse_buttons: MouseButtonState,
}

impl Input {
    /// The state of a tracked button.
    pub closed spec fn state(&self, button: Button) -> AgedState {
        match button {
            Button::Keyboard(key) => self.keyboard@[key.0 as int],
            Button::Mouse(mb) => self.mouse_buttons.state_of(mb)->Some_0,
        }
    }

    pub closed spec fn wf(&self) -> bool {
        self.keyboard@.len() == KEYCODE_COUNT
    }

    /// Every button released, just now.
    pub fn new() -> (r: Self)
        ensures
            r.wf(),
            forall|b: Button| is_tracked(b) ==> #[trigger] r.state(b) == (AgedState { state: ElementState::Released, age: 0 }),
    {
        let mut keyboard: Vec<AgedState> = Vec::new();
        while keyboard.len() < KEYCODE_COUNT
            invariant
                keyboard@.len() <= KEYCODE_COUNT,
                forall|i: int| 0 <= i < keyboard@.len() ==> #[trigger] keyboard@[i] == (AgedState { state: ElementState::Released, age: 0 }),
            decreases KEYCODE_COUNT - keyboard@.len(),
        {
            keyboard.push(AgedState::default());
        }
        Input {
            keyboard,
            mouse_buttons: MouseButtonState {
                left: AgedState::default(),
                middle: AgedState::default(),
                right: AgedState::default(),
            },
        }
    }

    /// Check the state of a button against a query: the button is in the queried state, and
    /// has been for an age within the queried range.
    pub fn button(&self, q: ButtonQuery) -> (r: bool)
        requires
            self.wf(),
            is_tracked(q.button),
        ensures
            r == (self.state(q.button).state == q.state && q.min_age <= self.state(q.button).age <= q.max_age),
    {
        let AgedState { state, age } = self.get_button_state(q.button);
        if state != q.state {
            return false;
        }
        if age < q.min_age || age > q.max_age {
            return false;
        }
        true
    }

    /// Get the state of an axis defined by a positive and negative button: 1 if the positive
    /// button is pressed, otherwise -1 if the negative one is, otherwise 0. Prefers the
    /// positive button if both are pressed.
    pub fn axis(&self, q: AxisQuery) -> (r: i8)
        requires
            self.wf(),
            is_tracked(q.pos_btn),
            is_tracked(q.neg_btn),
        ensures
            r == if self.state(q.pos_btn).state == ElementState::Pressed {
                1i8
            } else if self.state(q.neg_btn).state == ElementState::Pressed {
                -1i8
            } else {
                0i8
            },
    {
        match (self.get_button_state(q.pos_btn).state, self.get_button_state(q.neg_btn).state) {
            (ElementState::Pressed, _) => 1,
            (_, ElementState::Pressed) => -1,
            _ => 0,
        }
    }

    /// Get the state of a keyboard key along with the number of frames since it last changed.
    pub fn get_key_state(&self, key: Key) -> (r: AgedState)
        requires
            self.wf(),
            key.0 < KEYCODE_COUNT,
        ensures
            r == self.state(Button::Keyboard(key)),
    {
        self.keyboard[key.0]
    }

    /// Get the state of a tracked mouse button.
    pub fn get_mouse_button_state(&self, mb: MouseButton) -> (r: AgedState)
        requires
            is_tracked(Button::Mouse(mb)),
        ensures
            r == self.state(Button::Mouse(mb)),
    {
        match self.mouse_buttons.get(mb) {
            Some(s) => *s,
            None => AgedState::default(),
        }
    }

    /// Get the state of a tracked button.
    pub fn get_button_state(&self, btn: Button) -> (r: AgedState)
        requires
            self.wf(),
            is_tracked(btn),
        ensures
            r == self.state(btn),
    {
        match btn {
            Button::Keyboard(key) => self.get_key_state(key),
            Button::Mouse(mb) => self.get_mouse_button_state(mb),
        }
    }

    /// Age every button by a tick. Call this at the end of every frame.
    pub fn tick(&mut self)
        requires
            old(self).wf(),
            forall|b: Button| is_tracked(b) ==> #[trigger] old(self).state(b).age < usize::MAX,
        ensures
            final(self).wf(),
            forall|b: Button| is_tracked(b) ==> #[trigger] final(self).state(b) == (AgedState {
                age: (old(self).state(b).age + 1) as usize,
                ..old(self).state(b)
            }),
    {
        let ghost k0 = self.keyboard@;
        let mut i: usize = 0;
        while i < self.keyboard.len()
            invariant
                self.keyboard@.len() == KEYCODE_COUNT,
                k0.len() == KEYCODE_COUNT,
                self.mouse_buttons == old(self).mouse_buttons,
                k0 == old(self).keyboard@,
                forall|b: Button| is_tracked(b) ==> #[trigger] old(self).state(b).age < usize::MAX,
                i <= KEYCODE_COUNT,
                forall|j: int| 0 <= j < KEYCODE_COUNT ==> #[trigger] self.keyboard@[j] == if j < i {
                    AgedState { age: (k0[j].age + 1) as usize, ..k0[j] }
                } else {
                    k0[j]
                },
            decreases KEYCODE_COUNT - i,
        {
            proof {
                assert(old(self).state(Button::Keyboard(Key(i))).age < usize::MAX);
            }
            let mut s = self.keyboard[i];
            s.age = s.age + 1;
            self.keyboard.set(i, s);
            i = i + 1;
        }
        proof {
            assert(old(self).state(Button::Mouse(MouseButton::Left)).age < usize::MAX);
            assert(old(self).state(Button::Mouse(MouseButton::Middle)).age < usize::MAX);
            assert(old(self).state(Button::Mouse(MouseButton::Right)).age < usize::MAX);
        }
        self.mouse_buttons.left.age = self.mouse_buttons.left.age + 1;
        self.mouse_buttons.middle.age = self.mouse_buttons.middle.age + 1;
        self.mouse_buttons.right.age = self.mouse_buttons.right.age + 1;
    }

    /// Track a key changing to `state`: its age restarts only if the state changed.
    pub fn track_key(&mut self, key: Key, state: ElementState)
        requires
            old(self).wf(),
            key.0 < KEYCODE_COUNT,
        ensures
            final(self).wf(),
            final(self).state(Button::Keyboard(key)) == if state != old(self).state(Button::Keyboard(key)).state {
                AgedState { state, age: 0 }
            } else {
                old(self).state(Button::Keyboard(key))
            },
            forall|b: Button| is_tracked(b) && b != Button::Keyboard(key) ==> #[trigger] final(self).state(b) == old(self).state(b),
    {
        let cached_key = self.keyboard[key.0];
        if state != cached_key.state {
            self.keyboard.set(key.0, AgedState::new(state));
        }
    }

    /// Track a mouse button event: a tracked button's age restarts with its new state.
    pub fn track_mouse_button(&mut self, button: MouseButton, new_state: ElementState)
        requires
            old(self).wf(),
        ensures
            final(self).wf(),
            is_tracked(Button::Mouse(button)) ==> final(self).state(Button::Mouse(button)) == (AgedState { state: new_state, age: 0 }),
            forall|b: Button| is_tracked(b) && b != Button::Mouse(button) ==> #[trigger] final(self).state(b) == old(self).state(b),
    {
        match button {
            MouseButton::Left => self.mouse_buttons.left = AgedState::new(new_state),
            MouseButton::Middle => self.mouse_buttons.middle = AgedState::new(new_state),
            MouseButton::Right => self.mouse_buttons.right = AgedState::new(new_state),
            _ => {},
        }
    }
}

/// A button pressed on this tick matches the default query for it.
pub proof fn lemma_press_then_query(input: Input, b: Button)
    requires
        input.wf(),
        is_tracked(b),
        input.state(b) == (AgedState { state: ElementState::Pressed, age: 0 }),
    ensures
        input.state(b).state == just_pressed(b).state,
        just_pressed(b).min_age <= input.state(b).age <= just_pressed(b).max_age,
{
}

} // verus!
