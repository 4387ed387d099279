//! What the keyboard and the mouse do.

use vstd::prelude::*;

verus! {

/// The keys that do something.
#[derive(Clone, Copy, Debug, PartialEq, Eq, Structural)]
pub enum Key {
    Forward,
    Back,
    Left,
    Right,
    Up,
    DownLeft,
    DownRight,
    Escape,
    Other,
}

/// What happens to the window.
#[derive(Clone, Copy, Debug, PartialEq, Eq, Structural)]
pub enum InputEvent {
    CloseRequested,
    RedrawRequested,
    /// The new width and height.
    Resized(u32, u32),
    /// A mouse button was pressed.
    MousePressed,
    FocusLost,
    Scrolled,
    /// A key was pressed (true) or released (false).
    Key(Key, bool),
    Other,
}

/// What is to be done about it.
#[derive(Clone, Copy, Debug, PartialEq, Eq, Structural)]
pub enum InputAction {
    Nothing,
    Exit,
    Draw,
    /// The window shows something of this width and height.
    Resize(u32, u32),
    /// The mouse turns the camera from now on.
    Grab,
    /// The mouse is free from now on.
    Release,
    /// The camera gets faster or slower.
    Speed,
}

/// Where the camera is to go.
#[derive(Clone, Copy, Debug, PartialEq, Eq, Structural)]
pub struct Movement {
    pub forward: bool,
    pub back: bool,
    pub left: bool,
    pub right: bool,
    pub up: bool,
    pub down: bool,
}

/// Which keys are held, and whether the mouse turns the camera.
#[derive(Clone, Copy, Debug, PartialEq, Eq, Structural)]
pub struct Input {
    pub grabbed: bool,
    pub forward: bool,
    pub back: bool,
    pub left: bool,
    pub right: bool,
    pub up: bool,
    pub down_left: bool,
    pub down_right: bool,
}

impl Input {
    /// Whether a key is held. Of keys that move nothing that is not known.
    pub open spec fn holds(self, key: Key) -> bool {
        match key {
            Key::Forward => self.forward,
            Key::Back => self.back,
            Key::Left => self.left,
            Key::Right => self.right,
            Key::Up => self.up,
            Key::DownLeft => self.down_left,
            Key::DownRight => self.down_right,
            Key::Escape | Key::Other => false,
        }
    }

    /// A key that moves the camera was pressed or released.
    pub open spec fn with_key(self, key: Key, pressed: bool) -> Input {
        match key {
            Key::Forward => Input { forward: pressed, ..self },
            Key::Back => Input { back: pressed, ..self },
            Key::Left => Input { left: pressed, ..self },
            Key::Right => Input { right: pressed, ..self },
            Key::Up => Input { up: pressed, ..self },
            Key::DownLeft => Input { down_left: pressed, ..self },
            Key::DownRight => Input { down_right: pressed, ..self },
            Key::Escape | Key::Other => self,
        }
    }

    /// The state after an event, and what is to be done. Any click grabs the mouse; the Escape
    /// key and the loss of the focus release it. A window without an area is not resized.
    pub open spec fn after(self, event: InputEvent) -> (Input, InputAction) {
        match event {
            InputEvent::CloseRequested => (self, InputAction::Exit),
            InputEvent::RedrawRequested => (self, InputAction::Draw),
            InputEvent::Resized(w, h) => if w > 0 && h > 0 {
                (self, InputAction::Resize(w, h))
            } else {
                (self, InputAction::Nothing)
            },
            InputEvent::MousePressed => (Input { grabbed: true, ..self }, InputAction::Grab),
            InputEvent::FocusLost => (Input { grabbed: false, ..self }, InputAction::Release),
            InputEvent::Scrolled => (self, InputAction::Speed),
            InputEvent::Key(key, pressed) => if key == Key::Escape && pressed {
                (Input { grabbed: false, ..self }, InputAction::Release)
            } else {
                (self.with_key(key, pressed), InputAction::Nothing)
            },
            InputEvent::Other => (self, InputAction::Nothing),
        }
    }

    /// Nothing is held and the mouse is free.
    pub fn new() -> (r: Input)
        ensures
            !r.grabbed,
            forall|k: Key| !#[trigger] r.holds(k),
    {
        Input {
            grabbed: false,
            forward: false,
            back: false,
            left: false,
            right: false,
            up: false,
            down_left: false,
            down_right: false,
        }
    }

    fn set_key(&mut self, key: Key, pressed: bool)
        ensures
            *final(self) == old(self).with_key(key, pressed),
    {
        match key {
            Key::Forward => {
                self.forward = pressed;
            },
            Key::Back => {
                self.back = pressed;
            },
            Key::Left => {
                self.left = pressed;
            },
            Key::Right => {
                self.right = pressed;
            },
            Key::Up => {
                self.up = pressed;
            },
            Key::DownLeft => {
                self.down_left = pressed;
            },
            Key::DownRight => {
                self.down_right = pressed;
            },
            Key::Escape | Key::Other => {},
        }
    }

    /// Takes in an event, and says what is to be done.
    pub fn on_window_event(&mut self, event: InputEvent) -> (r: InputAction)
        ensures
            (*final(self), r) == old(self).after(event),
    {
        match event {
            InputEvent::CloseRequested => InputAction::Exit,
            InputEvent::RedrawRequested => InputAction::Draw,
            InputEvent::Resized(w, h) => {
                if w > 0 && h > 0 {
                    InputAction::Resize(w, h)
                } else {
                    InputAction::Nothing
                }
            },
            InputEvent::MousePressed => {
                self.grabbed = true;
                InputAction::Grab
            },
            InputEvent::FocusLost => {
                self.grabbed = false;
                InputAction::Release
            },
            InputEvent::Scrolled => InputAction::Speed,
            InputEvent::Key(key, pressed) => {
                if key == Key::Escape && pressed {
                    self.grabbed = false;
                    InputAction::Release
                } else {
                    self.set_key(key, pressed);
                    InputAction::Nothing
                }
            },
            InputEvent::Other => InputAction::Nothing,
        }
    }

    /// Whether the camera turns when the mouse moves.
    pub fn on_device_event(&self) -> (r: bool)
        ensures
            r == self.grabbed,
    {
        self.grabbed
    }

    /// Where the camera is to go. Either of the two keys for it moves it down.
    pub fn movement(&self) -> (r: Movement)
        ensures
            r.forward == self.holds(Key::Forward),
            r.back == self.holds(Key::Back),
            r.left == self.holds(Key::Left),
            r.right == self.holds(Key::Right),
            r.up == self.holds(Key::Up),
            r.down == (self.holds(Key::DownLeft) || self.holds(Key::DownRight)),
    {
        Movement {
            forward: self.forward,
            back: self.back,
            left: self.left,
            right: self.right,
            up: self.up,
            down: self.down_left || self.down_right,
        }
    }
}

/// A key is held from when it is pressed until it is released, whatever happens to other keys and
/// to the window.
pub proof fn law_keys_held(input: Input, event: InputEvent, key: Key)
    requires
        key != Key::Escape,
        key != Key::Other,
    ensures
        input.after(event).0.holds(key) == (match event {
            InputEvent::Key(k, pressed) => if k == key {
                pressed
            } else {
                input.holds(key)
            },
            _ => input.holds(key),
        }),
{
}

/// Any click grabs the mouse. The Escape key and the loss of the focus release it, and nothing
/// else does.
pub proof fn law_grab(input: Input, event: InputEvent)
    ensures
        event == InputEvent::MousePressed ==> input.after(event).0.grabbed,
        event == InputEvent::FocusLost || event == InputEvent::Key(Key::Escape, true) ==> !input.after(
            event,
        ).0.grabbed,
        event != InputEvent::MousePressed && event != InputEvent::FocusLost && event
            != InputEvent::Key(Key::Escape, true) ==> input.after(event).0.grabbed == input.grabbed,
{
}

/// A window is closed, drawn and resized as it asks for it, and the wheel changes the speed. A window
/// without an area keeps its size. Nothing else does anything but holding keys and the mouse.
pub proof fn law_actions(input: Input, w: u32, h: u32, key: Key, pressed: bool)
    ensures
        input.after(InputEvent::CloseRequested) == (input, InputAction::Exit),
        input.after(InputEvent::RedrawRequested) == (input, InputAction::Draw),
        input.after(InputEvent::Scrolled) == (input, InputAction::Speed),
        input.after(InputEvent::Other) == (input, InputAction::Nothing),
        w > 0 && h > 0 ==> input.after(InputEvent::Resized(w, h)) == (
            input,
            InputAction::Resize(w, h),
        ),
        w == 0 || h == 0 ==> input.after(InputEvent::Resized(w, h)) == (
            input,
            InputAction::Nothing,
        ),
        input.after(InputEvent::MousePressed).1 == InputAction::Grab,
        input.after(InputEvent::FocusLost).1 == InputAction::Release,
        input.after(InputEvent::Key(Key::Escape, true)).1 == InputAction::Release,
        key != Key::Escape || !pressed ==> input.after(InputEvent::Key(key, pressed)).1
            == InputAction::Nothing,
{
}

/// Each key that moves the camera is one of its own.
pub proof fn law_keys(input: Input)
    ensures
        input.holds(Key::Forward) == input.forward,
        input.holds(Key::Back) == input.back,
        input.holds(Key::Left) == input.left,
        input.holds(Key::Right) == input.right,
        input.holds(Key::Up) == input.up,
        input.holds(Key::DownLeft) == input.down_left,
        input.holds(Key::DownRight) == input.down_right,
{
}

} // verus!
