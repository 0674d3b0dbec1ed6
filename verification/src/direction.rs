//! The four directions an editing command can take.

use vstd::prelude::*;

verus! {

/// A direction for cursor movement or character deletion.
#[derive(Clone, Copy, PartialEq, Eq, Debug)]
pub enum Direction {
    Up,
    Down,
    Left,
    Right,
}

impl Direction {
    /// Whether this is the leftward direction.
    pub fn is_left(&self) -> (r: bool)
        ensures
            r <==> *self is Left,
    {
        match self {
            Direction::Left => true,
            _ => false,
        }
    }
}

} // verus!
