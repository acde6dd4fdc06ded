use vstd::prelude::*;

verus! {

/// Column `x` and row `y` of a tile.
#[derive(Debug, Clone, Copy, PartialEq, Eq, Structural, Hash)]
pub struct Position {
    pub x: usize,
    pub y: usize,
}

impl Position {
    pub fn new(x: usize, y: usize) -> (position: Self)
        ensures
            position == (Position { x, y }),
    {
        Position { x, y }
    }

    pub fn x(&self) -> (x: usize)
        ensures
            x == self.x,
    {
        self.x
    }

    pub fn y(&self) -> (y: usize)
        ensures
            y == self.y,
    {
        self.y
    }
}

} // verus!
