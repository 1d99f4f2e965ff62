//! From key presses to commands.
//!
//! While the modifier key is held, arrow keys gather a resize, which goes
//! out once per tick. Right after the modifier key was let go, the next
//! arrow key selects a frame in its direction. Any other key press ends
//! that wait, and so does any other event but a new window size. Four keys
//! split, close and clear without further ado.

use vstd::prelude::*;
use crate::frame::Direction;

verus! {

/// How far one arrow key press moves an edge.
pub const RESIZE_STEP: i32 = 10;

/// The keys that mean something here.
#[derive(Debug, Clone, Copy, PartialEq, Eq, Structural)]
pub enum Key {
    /// The key that, held, turns arrows into resizes and, let go, turns the
    /// next arrow into a selection.
    Modifier,
    /// An arrow key.
    Arrow(Direction),
    /// Cuts the active frame across its height.
    SplitHorizontal,
    /// Cuts the active frame across its width.
    SplitVertical,
    /// Closes the active frame.
    Close,
    /// Keeps one frame only.
    KeepOnly,
    /// Any other key.
    Other,
}

/// What can come in.
#[derive(Debug, Clone, Copy, PartialEq, Eq, Structural)]
pub enum InputEvent {
    /// The window is to be closed.
    Quit,
    /// The window has a new size.
    WindowResized { width: u32, height: u32 },
    /// A key went down.
    KeyDown(Key),
    /// A key came up.
    KeyUp(Key),
    /// Anything else.
    Other,
}

/// What the layout is asked to do.
#[derive(Debug, Clone, Copy, PartialEq, Eq, Structural)]
pub enum Command {
    SplitHorizontal,
    SplitVertical,
    CloseActive,
    KeepActiveOnly,
    ResizeActiveBy(i32, i32),
    SelectDirection(Direction),
    CanvasResized(u32, u32),
}

/// What follows from one event.
#[derive(Debug, Clone, Copy, PartialEq, Eq, Structural)]
pub enum Reaction {
    /// Nothing to do.
    Ignore,
    /// Leave the event loop.
    Quit,
    /// Hand the command to the layout.
    Issue(Command),
}

/// What is remembered between events.
#[derive(Debug, Clone, Copy, PartialEq, Eq, Structural)]
pub struct InputState {
    /// The modifier key is held.
    pub resizing: bool,
    /// The modifier key was let go and nothing has ended the wait since.
    pub select_pending: bool,
    /// The resize gathered so far, along the width.
    pub resize_dx: i32,
    /// The resize gathered so far, along the height.
    pub resize_dy: i32,
}

/// The part of a step in the direction that goes along the width.
pub open spec fn step_dx(direction: Direction) -> int {
    match direction {
        Direction::Left => -RESIZE_STEP,
        Direction::Right => RESIZE_STEP as int,
        _ => 0,
    }
}

/// The part of a step in the direction that goes along the height.
pub open spec fn step_dy(direction: Direction) -> int {
    match direction {
        Direction::Up => -RESIZE_STEP,
        Direction::Down => RESIZE_STEP as int,
        _ => 0,
    }
}

impl InputState {
    /// Nothing held, nothing pending, nothing gathered.
    pub open spec fn idle() -> InputState {
        InputState { resizing: false, select_pending: false, resize_dx: 0, resize_dy: 0 }
    }

    /// Whether the event adds to the gathered resize.
    pub open spec fn gathers(self, event: InputEvent) -> bool {
        event matches InputEvent::KeyDown(Key::Arrow(_)) && !self.select_pending && self.resizing
    }

    /// A demand on callers: the gathered resize stays representable.
    pub open spec fn accepts(self, event: InputEvent) -> bool {
        match event {
            InputEvent::KeyDown(Key::Arrow(direction)) => self.gathers(event) ==> {
                &&& i32::MIN <= self.resize_dx + step_dx(direction) <= i32::MAX
                &&& i32::MIN <= self.resize_dy + step_dy(direction) <= i32::MAX
            },
            _ => true,
        }
    }

    /// The state after the event.
    pub open spec fn after(self, event: InputEvent) -> InputState {
        match event {
            InputEvent::Quit => self,
            InputEvent::WindowResized { .. } => self,
            InputEvent::KeyDown(Key::Modifier) => InputState {
                resizing: true,
                select_pending: false,
                ..self
            },
            InputEvent::KeyUp(Key::Modifier) => InputState {
                resizing: false,
                select_pending: true,
                ..self
            },
            InputEvent::KeyDown(Key::Arrow(direction)) => if self.select_pending {
                InputState { select_pending: false, ..self }
            } else if self.resizing {
                InputState {
                    resize_dx: (self.resize_dx + step_dx(direction)) as i32,
                    resize_dy: (self.resize_dy + step_dy(direction)) as i32,
                    ..self
                }
            } else {
                self
            },
            _ => InputState { select_pending: false, ..self },
        }
    }

    /// What follows from the event.
    pub open spec fn reaction(self, event: InputEvent) -> Reaction {
        match event {
            InputEvent::Quit => Reaction::Quit,
            InputEvent::WindowResized { width, height } => Reaction::Issue(
                Command::CanvasResized(width, height),
            ),
            InputEvent::KeyDown(Key::Arrow(direction)) => if self.select_pending {
                Reaction::Issue(Command::SelectDirection(direction))
            } else {
                Reaction::Ignore
            },
            InputEvent::KeyDown(Key::SplitHorizontal) => Reaction::Issue(Command::SplitHorizontal),
            InputEvent::KeyDown(Key::SplitVertical) => Reaction::Issue(Command::SplitVertical),
            InputEvent::KeyDown(Key::Close) => Reaction::Issue(Command::CloseActive),
            InputEvent::KeyDown(Key::KeepOnly) => Reaction::Issue(Command::KeepActiveOnly),
            _ => Reaction::Ignore,
        }
    }

    /// The state after a tick: what was gathered has gone out, if the
    /// modifier key is held.
    pub open spec fn after_tick(self) -> InputState {
        if self.resizing {
            InputState { resize_dx: 0, resize_dy: 0, ..self }
        } else {
            self
        }
    }

    /// What goes out at a tick: the gathered resize, while the modifier key
    /// is held.
    pub open spec fn at_tick(self) -> Option<Command> {
        if self.resizing {
            Some(Command::ResizeActiveBy(self.resize_dx, self.resize_dy))
        } else {
            None
        }
    }

    /// The state before any event.
    pub fn new() -> (state: Self)
        ensures
            state == InputState::idle(),
    {
        InputState { resizing: false, select_pending: false, resize_dx: 0, resize_dy: 0 }
    }

    /// Whether the state can take the event without the gathered resize
    /// leaving the representable range.
    pub fn can_accept(&self, event: InputEvent) -> (ok: bool)
        ensures
            ok == self.accepts(event),
    {
        match event {
            InputEvent::KeyDown(Key::Arrow(direction)) => {
                if !self.select_pending && self.resizing {
                    match direction {
                        Direction::Up => self.resize_dy >= i32::MIN + RESIZE_STEP,
                        Direction::Down => self.resize_dy <= i32::MAX - RESIZE_STEP,
                        Direction::Left => self.resize_dx >= i32::MIN + RESIZE_STEP,
                        Direction::Right => self.resize_dx <= i32::MAX - RESIZE_STEP,
                    }
                } else {
                    true
                }
            },
            _ => true,
        }
    }

    /// Takes one event in.
    pub fn on_event(&mut self, event: InputEvent) -> (reaction: Reaction)
        requires
            old(self).accepts(event),
        ensures
            *final(self) == old(self).after(event),
            reaction == old(self).reaction(event),
    {
        match event {
            InputEvent::Quit => Reaction::Quit,
            InputEvent::WindowResized { width, height } => Reaction::Issue(
                Command::CanvasResized(width, height),
            ),
            InputEvent::KeyDown(Key::Modifier) => {
                self.resizing = true;
                self.select_pending = false;
                Reaction::Ignore
            },
            InputEvent::KeyUp(Key::Modifier) => {
                self.resizing = false;
                self.select_pending = true;
                Reaction::Ignore
            },
            InputEvent::KeyDown(Key::Arrow(direction)) => {
                if self.select_pending {
                    self.select_pending = false;
                    Reaction::Issue(Command::SelectDirection(direction))
                } else {
                    if self.resizing {
                        match direction {
                            Direction::Up => {
                                self.resize_dy = self.resize_dy - RESIZE_STEP;
                            },
                            Direction::Down => {
                                self.resize_dy = self.resize_dy + RESIZE_STEP;
                            },
                            Direction::Left => {
                                self.resize_dx = self.resize_dx - RESIZE_STEP;
                            },
                            Direction::Right => {
                                self.resize_dx = self.resize_dx + RESIZE_STEP;
                            },
                        }
                    }
                    Reaction::Ignore
                }
            },
            InputEvent::KeyDown(Key::SplitHorizontal) => {
                self.select_pending = false;
                Reaction::Issue(Command::SplitHorizontal)
            },
            InputEvent::KeyDown(Key::SplitVertical) => {
                self.select_pending = false;
                Reaction::Issue(Command::SplitVertical)
            },
            InputEvent::KeyDown(Key::Close) => {
                self.select_pending = false;
                Reaction::Issue(Command::CloseActive)
            },
            InputEvent::KeyDown(Key::KeepOnly) => {
                self.select_pending = false;
                Reaction::Issue(Command::KeepActiveOnly)
            },
            _ => {
                self.select_pending = false;
                Reaction::Ignore
            },
        }
    }

    /// Ends a tick: while the modifier key is held, the gathered resize
    /// goes out and the gathering starts again from nothing.
    pub fn on_tick(&mut self) -> (command: Option<Command>)
        ensures
            *final(self) == old(self).after_tick(),
            command == old(self).at_tick(),
    {
        if self.resizing {
            let command = Command::ResizeActiveBy(self.resize_dx, self.resize_dy);
            self.resize_dx = 0;
            self.resize_dy = 0;
            Some(command)
        } else {
            None
        }
    }
}

} // verus!
