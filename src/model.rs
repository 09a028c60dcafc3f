use vstd::prelude::*;

verus! {

/// One cell of the maze, named by the lower bounds of its coordinates.
#[derive(Clone, Copy, Debug, PartialEq, Eq, Hash, Structural)]
pub struct Room {
    /// The lower bound of this room's `x` coordinates.
    pub west_edge: i32,
    /// The lower bound of this room's `z` coordinates.
    pub south_edge: i32,
}

/// The axis a wall runs along.
#[derive(Clone, Copy, Debug, PartialEq, Eq, Hash, Structural)]
pub enum WallOrientation {
    ParallelToX,
    ParallelToZ,
}

/// Whether a wall stands, is removed, or is still undecided.
#[derive(Clone, Copy, Debug, PartialEq, Eq, Hash, Structural)]
pub enum Disposition {
    Present,
    Absent,
    Unknown,
}

/// A unit wall segment anchored at its south-west corner.
#[derive(Clone, Copy, Debug, PartialEq, Eq, Hash)]
pub struct Wall {
    pub sw_corner: (i32, i32),
    pub orientation: WallOrientation,
    pub disposition: Disposition,
}

/// An edge of the room graph: the wall between rooms `low` and `high`
/// (indices into the graph's rooms, `low < high`).
#[derive(Clone, Copy, Debug, PartialEq, Eq, Hash)]
pub struct InteriorEdge {
    pub low: usize,
    pub high: usize,
    pub wall: Wall,
}

/// The rooms where the player starts and where the goal is placed.
#[derive(Clone, Copy, Debug, PartialEq, Eq, Hash, Structural)]
pub struct SpawnPositions {
    pub start: Room,
    pub goal: Room,
}

impl InteriorEdge {
    /// The edge touches room `k`.
    pub open spec fn touches(self, k: int) -> bool {
        self.low == k || self.high == k
    }

    /// The edge is open and joins rooms `a` and `b`, in either direction.
    pub open spec fn passage_between(self, a: int, b: int) -> bool {
        &&& self.wall.disposition == Disposition::Absent
        &&& ((self.low == a && self.high == b) || (self.low == b && self.high == a))
    }
}

} // verus!
