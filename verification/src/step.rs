use vstd::prelude::*;

verus! {

/// One move to an adjacent tile of the grid.
#[derive(Debug, Clone, Copy, PartialEq, Eq, Structural, Hash)]
pub enum Step {
    Up,
    Right,
    Down,
    Left,
}

} // verus!
