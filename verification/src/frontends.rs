//! The presentation boundary of the editor core.
//!
//! The core reports cursor position and per-character draw requests to a
//! frontend and receives discrete input events from it.  The core only
//! consumes this interface; frontends implement it outside the library.

use vstd::prelude::*;

verus! {

/// A key the frontend recognized.
#[derive(Clone, Copy, PartialEq, Eq, Debug)]
pub enum Key {
    Char(char),
    Up,
    Down,
    Left,
    Right,
    Enter,
    Backspace,
    Delete,
    Esc,
}

/// A foreground or background color of one drawn character cell.
#[derive(Clone, Copy, PartialEq, Eq, Debug)]
pub enum CharColor {
    Default,
    Black,
    White,
}

/// The style of one drawn character cell.
#[derive(Clone, Copy, PartialEq, Eq, Debug)]
pub enum CharStyle {
    Normal,
    Bold,
    Reverse,
}

/// An input event produced by a frontend.
pub enum EditorEvent {
    KeyEvent(Option<Key>),
    UnSupported,
}

/// The rendering and input interface a frontend implements.
pub trait Frontend {
    /// Wait for and return the next input event.
    fn poll_event(&self) -> EditorEvent;

    /// Flush a frame to the screen.
    fn present(&self);

    /// The window height in character cells.
    fn get_window_height(&self) -> usize;

    /// The window width in character cells.
    fn get_window_width(&self) -> usize;

    /// Place the drawn cursor at the given column and row.
    fn draw_cursor(&mut self, offset: isize, linenum: isize);

    /// Draw one character cell.
    fn draw_char(
        &mut self,
        offset: usize,
        linenum: usize,
        ch: char,
        fg: CharColor,
        bg: CharColor,
        style: CharStyle,
    );
}

} // verus!
