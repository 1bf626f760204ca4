//! A small terminal text editor: the text model, the cursor and scrolling
//! rules, key handling and what is drawn on the screen.
use vstd::prelude::*;

pub mod text;
pub mod raw;
pub mod fmt;
pub mod keyboard;
pub mod screen;
pub mod editor;

verus! {

pub type StdResult<T, E> = core::result::Result<T, E>;

pub enum EditorResult {
    KeyRradFailed,
}

/// A cursor or size on the screen: `x` is the column, `y` the line.
#[derive(Clone, Copy, Debug)]
pub struct Position {
    pub x: u16,
    pub y: u16,
}

impl Position {
    /// The line `y` lies before line `raw` (compared as a `u16`, the value
    /// the count keeps modulo 2^16).
    pub fn above(&self, raw: usize) -> (r: bool)
        ensures
            r == (self.y < raw as u16),
    {
        self.y < raw as u16
    }

    /// The column `x` lies before column `col` (compared as a `u16`).
    pub fn left_off(&self, col: usize) -> (r: bool)
        ensures
            r == (self.x < col as u16),
    {
        self.x < col as u16
    }

    /// The line, as an index.
    pub fn raw(&self) -> (r: usize)
        ensures
            r == self.y,
    {
        self.y as usize
    }
}

impl Default for Position {
    fn default() -> (r: Self)
        ensures
            r.x == 0 && r.y == 0,
    {
        Position { x: 0, y: 0 }
    }
}

} // verus!
