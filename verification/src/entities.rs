//! Basic value types shared by the grid and the command layer.

use vstd::prelude::*;

verus! {

/// One of the four edges a grow or shrink operation acts on.
#[derive(Clone, Copy, Debug, Hash, PartialEq, Eq, Structural)]
pub enum Side {
    Top,
    Bottom,
    Left,
    Right,
}

/// A user-facing structural intent: `Add` always grows, `Remove` always shrinks.
#[derive(Clone, Copy, Debug, Hash, PartialEq, Eq, Structural)]
pub enum GridAction {
    Add(Side),
    Remove(Side),
}

/// Grid dimensions. A grid is never smaller than 1 x 1.
#[derive(Clone, Copy, Debug, PartialEq, Eq, Structural)]
pub struct Size {
    pub width: usize,
    pub height: usize,
}

impl Size {
    /// Both dimensions strictly positive.
    pub open spec fn wf(self) -> bool {
        self.width >= 1 && self.height >= 1
    }
}

} // verus!
