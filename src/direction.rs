use vstd::prelude::*;

verus! {

/// One of the six axis-aligned unit steps of the voxel lattice.
#[derive(Clone, Copy, PartialEq, Eq, Structural, Debug)]
pub enum Direction {
    PosX,
    NegX,
    PosY,
    NegY,
    PosZ,
    NegZ,
}

/// The six directions, in the order used by `Direction::from_index`.
pub open spec fn dir_of(k: int) -> Direction {
    if k == 0 {
        Direction::PosX
    } else if k == 1 {
        Direction::NegX
    } else if k == 2 {
        Direction::PosY
    } else if k == 3 {
        Direction::NegY
    } else if k == 4 {
        Direction::PosZ
    } else {
        Direction::NegZ
    }
}

impl Direction {
    /// Position of the direction in the fixed order `+X, -X, +Y, -Y, +Z, -Z`.
    pub open spec fn index(self) -> int {
        match self {
            Direction::PosX => 0,
            Direction::NegX => 1,
            Direction::PosY => 2,
            Direction::NegY => 3,
            Direction::PosZ => 4,
            Direction::NegZ => 5,
        }
    }

    pub open spec fn spec_opposite(self) -> Direction {
        match self {
            Direction::PosX => Direction::NegX,
            Direction::NegX => Direction::PosX,
            Direction::PosY => Direction::NegY,
            Direction::NegY => Direction::PosY,
            Direction::PosZ => Direction::NegZ,
            Direction::NegZ => Direction::PosZ,
        }
    }

    /// The reverse step.
    pub fn opposite(self) -> (r: Direction)
        ensures
            r == self.spec_opposite(),
    {
        match self {
            Direction::PosX => Direction::NegX,
            Direction::NegX => Direction::PosX,
            Direction::PosY => Direction::NegY,
            Direction::NegY => Direction::PosY,
            Direction::PosZ => Direction::NegZ,
            Direction::NegZ => Direction::PosZ,
        }
    }

    pub fn to_index(self) -> (r: usize)
        ensures
            r as int == self.index(),
            r < 6,
    {
        match self {
            Direction::PosX => 0,
            Direction::NegX => 1,
            Direction::PosY => 2,
            Direction::NegY => 3,
            Direction::PosZ => 4,
            Direction::NegZ => 5,
        }
    }

    pub fn from_index(k: usize) -> (r: Direction)
        requires
            k < 6,
        ensures
            r == dir_of(k as int),
            r.index() == k as int,
    {
        if k == 0 {
            Direction::PosX
        } else if k == 1 {
            Direction::NegX
        } else if k == 2 {
            Direction::PosY
        } else if k == 3 {
            Direction::NegY
        } else if k == 4 {
            Direction::PosZ
        } else {
            Direction::NegZ
        }
    }
}

} // verus!
