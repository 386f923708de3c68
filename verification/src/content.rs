use vstd::prelude::*;

verus! {

/// The unit step from a path cell toward the cell that follows it on the
/// way to the goal.
#[derive(Clone, Copy, PartialEq, Eq, Structural, Debug)]
pub enum Direction {
    Left,
    Up,
    Right,
    Down,
}

/// What a single grid cell holds. `Explored` and `Trace` are transient
/// markers written by the path search and reset only by `clear_path`;
/// the other variants are placed by the editor.
#[derive(Clone, Copy, PartialEq, Eq, Structural, Debug)]
pub enum Content {
    Car,
    Goal,
    Wall,
    Empty,
    Trace(Direction),
    Explored,
}

impl Content {
    /// True of the transient search markers, which `clear_path` resets.
    pub open spec fn is_marker(self) -> bool {
        self is Trace || self is Explored
    }
}

} // verus!
