use vstd::prelude::*;

verus! {

/// Degrees by which one key press tilts the sensor.
pub const TILT_STEP_DEGREES: i32 = 10;

/// A key as far as the viewer tells keys apart.
#[derive(Clone, Copy, Debug, PartialEq, Eq, Structural)]
pub enum Key {
    Up,
    Down,
    Q,
    Other,
}

/// What the host is to do after an input event.
#[derive(Clone, Copy, Debug, PartialEq, Eq, Structural)]
pub enum Action {
    /// Nothing.
    Nothing,
    /// Change the tilt of the sensor by so many degrees.
    TiltBy { degrees: i32 },
}

/// The viewer's state between input events.
#[derive(Clone, Copy, Debug, PartialEq, Eq, Structural)]
pub struct InputHandler {
    /// Whether the viewer has been asked to end.
    pub is_closed: bool,
}

/// The action that a key event asks for.
pub open spec fn action_for(key: Option<Key>) -> Action {
    match key {
        Some(Key::Up) => Action::TiltBy { degrees: TILT_STEP_DEGREES as i32 },
        Some(Key::Down) => Action::TiltBy { degrees: (0 - TILT_STEP_DEGREES) as i32 },
        _ => Action::Nothing,
    }
}

impl InputHandler {
    /// A viewer that has not been asked to end.
    pub fn new() -> (handler: InputHandler)
        ensures
            !handler.is_closed,
    {
        InputHandler { is_closed: false }
    }

    /// The window was closed: the viewer ends.
    pub fn close_event(&mut self)
        ensures
            final(self).is_closed,
    {
        self.is_closed = true;
    }

    /// A key was pressed, or an event came without a key: `Q` ends the
    /// viewer, the arrow keys tilt the sensor, anything else changes nothing.
    pub fn key_event(&mut self, key: Option<Key>) -> (action: Action)
        ensures
            action == action_for(key),
            final(self).is_closed == (old(self).is_closed || key == Some(Key::Q)),
    {
        match key {
            Some(Key::Up) => Action::TiltBy { degrees: TILT_STEP_DEGREES },
            Some(Key::Down) => Action::TiltBy { degrees: 0 - TILT_STEP_DEGREES },
            Some(Key::Q) => {
                self.is_closed = true;
                Action::Nothing
            },
            _ => Action::Nothing,
        }
    }
}

} // verus!
