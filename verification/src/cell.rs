use vstd::prelude::*;

verus! {

/// The paint of one cell of the map.
#[derive(Clone, Copy, Debug, PartialEq, Eq, Structural)]
pub enum Cell {
    /// Not yet reached by the generator.
    Null,
    /// Part of the maze: a room or an opened wall.
    Open,
    /// A wall next to exactly one open room, which the generator may open.
    Accessible,
    /// A wall between two open rooms, kept shut.
    Closed,
    /// Blocked before generation started (rooms and the walls around them).
    ForceClosed,
}

} // verus!
