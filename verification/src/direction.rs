//! The six edge directions and the six vertex (diagonal) directions of a
//! hexagon, with their rotations.
use vstd::prelude::*;

verus! {

/// The six directions towards the edge-adjacent neighbors of a hexagon,
/// listed counter clockwise.
///
/// ```txt
///            x Axis
///            ___
///           /   \
///       +--+  1  +--+
///      / 2  \___/  0 \
///      \    /   \    /
///       +--+     +--+
///      /    \___/    \
///      \ 3  /   \  5 /
///       +--+  4  +--+   y Axis
///           \___/
/// ```
#[derive(Debug, Copy, Clone, PartialEq, Eq, Hash, Structural)]
pub enum Direction {
    /// Direction to (1, -1)
    TopRight,
    /// Direction to (0, -1)
    Top,
    /// Direction to (-1, 0)
    TopLeft,
    /// Direction to (-1, 1)
    BottomLeft,
    /// Direction to (0, 1)
    Bottom,
    /// Direction to (1, 0)
    BottomRight,
}

impl Direction {
    /// All six directions in counter clockwise order.
    pub const ALL_DIRECTIONS: [Direction; 6] = [
        Direction::TopRight,
        Direction::Top,
        Direction::TopLeft,
        Direction::BottomLeft,
        Direction::Bottom,
        Direction::BottomRight,
    ];

    /// Position of the direction in counter clockwise order, from 0 to 5.
    pub open spec fn spec_index(self) -> int {
        match self {
            Direction::TopRight => 0,
            Direction::Top => 1,
            Direction::TopLeft => 2,
            Direction::BottomLeft => 3,
            Direction::Bottom => 4,
            Direction::BottomRight => 5,
        }
    }

    /// The direction at position `i` modulo 6.
    pub open spec fn spec_from_index(i: int) -> Direction {
        let k = i % 6;
        if k == 0 {
            Direction::TopRight
        } else if k == 1 {
            Direction::Top
        } else if k == 2 {
            Direction::TopLeft
        } else if k == 3 {
            Direction::BottomLeft
        } else if k == 4 {
            Direction::Bottom
        } else {
            Direction::BottomRight
        }
    }

    /// Position of the direction in counter clockwise order.
    pub fn index(self) -> (r: u8)
        ensures
            r == self.spec_index(),
    {
        match self {
            Direction::TopRight => 0,
            Direction::Top => 1,
            Direction::TopLeft => 2,
            Direction::BottomLeft => 3,
            Direction::Bottom => 4,
            Direction::BottomRight => 5,
        }
    }

    /// The direction at position `i` modulo 6.
    pub fn from_index(i: u8) -> (r: Direction)
        ensures
            r == Self::spec_from_index(i as int),
    {
        let k: u8 = i % 6;
        if k == 0 {
            Direction::TopRight
        } else if k == 1 {
            Direction::Top
        } else if k == 2 {
            Direction::TopLeft
        } else if k == 3 {
            Direction::BottomLeft
        } else if k == 4 {
            Direction::Bottom
        } else {
            Direction::BottomRight
        }
    }

    /// All six directions in counter clockwise order, starting with
    /// [`Direction::TopRight`].
    pub fn iter() -> (r: [Direction; 6])
        ensures
            forall|i: int| 0 <= i < 6 ==> (#[trigger] r[i]).spec_index() == i,
    {
        [
            Direction::TopRight,
            Direction::Top,
            Direction::TopLeft,
            Direction::BottomLeft,
            Direction::Bottom,
            Direction::BottomRight,
        ]
    }

    /// The direction `offset` steps of 60 degrees counter clockwise of `self`.
    pub open spec fn spec_rotate_ccw(self, offset: nat) -> Direction {
        Self::spec_from_index(self.spec_index() + offset)
    }

    /// The direction `offset` steps of 60 degrees clockwise of `self`.
    pub open spec fn spec_rotate_cw(self, offset: nat) -> Direction {
        Self::spec_from_index(self.spec_index() - offset)
    }

    /// The opposite direction.
    pub fn opposite(self) -> (r: Direction)
        ensures
            r == self.spec_rotate_ccw(3),
            r == self.spec_rotate_cw(3),
    {
        match self {
            Direction::TopRight => Direction::BottomLeft,
            Direction::Top => Direction::Bottom,
            Direction::TopLeft => Direction::BottomRight,
            Direction::BottomLeft => Direction::TopRight,
            Direction::Bottom => Direction::Top,
            Direction::BottomRight => Direction::TopLeft,
        }
    }

    /// The next direction in clockwise order.
    pub fn clockwise(self) -> (r: Direction)
        ensures
            r == self.spec_rotate_cw(1),
    {
        match self {
            Direction::TopRight => Direction::BottomRight,
            Direction::Top => Direction::TopRight,
            Direction::TopLeft => Direction::Top,
            Direction::BottomLeft => Direction::TopLeft,
            Direction::Bottom => Direction::BottomLeft,
            Direction::BottomRight => Direction::Bottom,
        }
    }

    /// The next direction in counter clockwise order.
    pub fn counter_clockwise(self) -> (r: Direction)
        ensures
            r == self.spec_rotate_ccw(1),
    {
        match self {
            Direction::TopRight => Direction::Top,
            Direction::Top => Direction::TopLeft,
            Direction::TopLeft => Direction::BottomLeft,
            Direction::BottomLeft => Direction::Bottom,
            Direction::Bottom => Direction::BottomRight,
            Direction::BottomRight => Direction::TopRight,
        }
    }

    /// Rotates `self` counter clockwise by `offset` steps of 60 degrees.
    pub fn rotate_ccw(self, offset: usize) -> (r: Direction)
        ensures
            r == self.spec_rotate_ccw(offset as nat),
    {
        let k: u8 = (offset % 6) as u8;
        Self::from_index(self.index() + k)
    }

    /// Rotates `self` clockwise by `offset` steps of 60 degrees.
    pub fn rotate_cw(self, offset: usize) -> (r: Direction)
        ensures
            r == self.spec_rotate_cw(offset as nat),
    {
        let k: u8 = (offset % 6) as u8;
        Self::from_index(self.index() + 6 - k)
    }

    /// The diagonal direction next to `self` in counter clockwise order.
    pub fn diagonal_ccw(self) -> (r: DiagonalDirection)
        ensures
            r.spec_index() == (self.spec_index() + 1) % 6,
    {
        match self {
            Direction::TopRight => DiagonalDirection::TopRight,
            Direction::Top => DiagonalDirection::TopLeft,
            Direction::TopLeft => DiagonalDirection::Left,
            Direction::BottomLeft => DiagonalDirection::BottomLeft,
            Direction::Bottom => DiagonalDirection::BottomRight,
            Direction::BottomRight => DiagonalDirection::Right,
        }
    }

    /// The diagonal direction next to `self` in clockwise order.
    pub fn diagonal_cw(self) -> (r: DiagonalDirection)
        ensures
            r.spec_index() == self.spec_index(),
    {
        match self {
            Direction::TopRight => DiagonalDirection::Right,
            Direction::Top => DiagonalDirection::TopRight,
            Direction::TopLeft => DiagonalDirection::TopLeft,
            Direction::BottomLeft => DiagonalDirection::Left,
            Direction::Bottom => DiagonalDirection::BottomLeft,
            Direction::BottomRight => DiagonalDirection::BottomRight,
        }
    }

    /// [`Direction::ALL_DIRECTIONS`] lists each direction at its position.
    pub proof fn lemma_all_directions()
        ensures
            forall|i: int| 0 <= i < 6 ==> (#[trigger] Self::ALL_DIRECTIONS[i]).spec_index() == i,
    {
    }

    /// Rotating counter clockwise and then clockwise by the same number of
    /// steps, or the other way round, gives the direction back.
    pub proof fn lemma_rotations_cancel(self, offset: nat)
        ensures
            self.spec_rotate_ccw(offset).spec_rotate_cw(offset) == self,
            self.spec_rotate_cw(offset).spec_rotate_ccw(offset) == self,
    {
    }

    /// Rotating by a multiple of six steps, either way, is the identity.
    pub proof fn lemma_full_turns(self, turns: nat)
        ensures
            self.spec_rotate_cw(6 * turns) == self,
            self.spec_rotate_ccw(6 * turns) == self,
    {
    }

    /// Rotations add up: `a` steps followed by `b` steps are `a + b` steps.
    pub proof fn lemma_rotations_compose(self, a: nat, b: nat)
        ensures
            self.spec_rotate_cw(a).spec_rotate_cw(b) == self.spec_rotate_cw(a + b),
            self.spec_rotate_ccw(a).spec_rotate_ccw(b) == self.spec_rotate_ccw(a + b),
    {
    }
}

/// The six directions towards the vertices of a hexagon, listed counter
/// clockwise. The diagonal at position `i` lies between the edge directions
/// at positions `i - 1` and `i`.
#[derive(Debug, Copy, Clone, PartialEq, Eq, Hash, Structural)]
pub enum DiagonalDirection {
    /// Direction to (2, -1)
    Right,
    /// Direction to (1, -2)
    TopRight,
    /// Direction to (-1, -1)
    TopLeft,
    /// Direction to (-2, 1)
    Left,
    /// Direction to (-1, 2)
    BottomLeft,
    /// Direction to (1, 1)
    BottomRight,
}

impl DiagonalDirection {
    /// All six diagonal directions in counter clockwise order.
    pub const ALL_DIRECTIONS: [DiagonalDirection; 6] = [
        DiagonalDirection::Right,
        DiagonalDirection::TopRight,
        DiagonalDirection::TopLeft,
        DiagonalDirection::Left,
        DiagonalDirection::BottomLeft,
        DiagonalDirection::BottomRight,
    ];

    /// Position of the diagonal in counter clockwise order, from 0 to 5.
    pub open spec fn spec_index(self) -> int {
        match self {
            DiagonalDirection::Right => 0,
            DiagonalDirection::TopRight => 1,
            DiagonalDirection::TopLeft => 2,
            DiagonalDirection::Left => 3,
            DiagonalDirection::BottomLeft => 4,
            DiagonalDirection::BottomRight => 5,
        }
    }

    /// The diagonal at position `i` modulo 6.
    pub open spec fn spec_from_index(i: int) -> DiagonalDirection {
        let k = i % 6;
        if k == 0 {
            DiagonalDirection::Right
        } else if k == 1 {
            DiagonalDirection::TopRight
        } else if k == 2 {
            DiagonalDirection::TopLeft
        } else if k == 3 {
            DiagonalDirection::Left
        } else if k == 4 {
            DiagonalDirection::BottomLeft
        } else {
            DiagonalDirection::BottomRight
        }
    }

    /// Position of the diagonal in counter clockwise order.
    pub fn index(self) -> (r: u8)
        ensures
            r == self.spec_index(),
    {
        match self {
            DiagonalDirection::Right => 0,
            DiagonalDirection::TopRight => 1,
            DiagonalDirection::TopLeft => 2,
            DiagonalDirection::Left => 3,
            DiagonalDirection::BottomLeft => 4,
            DiagonalDirection::BottomRight => 5,
        }
    }

    /// The diagonal at position `i` modulo 6.
    pub fn from_index(i: u8) -> (r: DiagonalDirection)
        ensures
            r == Self::spec_from_index(i as int),
    {
        let k: u8 = i % 6;
        if k == 0 {
            DiagonalDirection::Right
        } else if k == 1 {
            DiagonalDirection::TopRight
        } else if k == 2 {
            DiagonalDirection::TopLeft
        } else if k == 3 {
            DiagonalDirection::Left
        } else if k == 4 {
            DiagonalDirection::BottomLeft
        } else {
            DiagonalDirection::BottomRight
        }
    }

    /// The diagonal `offset` steps of 60 degrees counter clockwise of `self`.
    pub open spec fn spec_rotate_ccw(self, offset: nat) -> DiagonalDirection {
        Self::spec_from_index(self.spec_index() + offset)
    }

    /// The diagonal `offset` steps of 60 degrees clockwise of `self`.
    pub open spec fn spec_rotate_cw(self, offset: nat) -> DiagonalDirection {
        Self::spec_from_index(self.spec_index() - offset)
    }

    /// The next diagonal in clockwise order.
    pub fn clockwise(self) -> (r: DiagonalDirection)
        ensures
            r == self.spec_rotate_cw(1),
    {
        Self::from_index(self.index() + 5)
    }

    /// The next diagonal in counter clockwise order.
    pub fn counter_clockwise(self) -> (r: DiagonalDirection)
        ensures
            r == self.spec_rotate_ccw(1),
    {
        Self::from_index(self.index() + 1)
    }

    /// Rotates `self` counter clockwise by `offset` steps of 60 degrees.
    pub fn rotate_ccw(self, offset: usize) -> (r: DiagonalDirection)
        ensures
            r == self.spec_rotate_ccw(offset as nat),
    {
        let k: u8 = (offset % 6) as u8;
        Self::from_index(self.index() + k)
    }

    /// Rotates `self` clockwise by `offset` steps of 60 degrees.
    pub fn rotate_cw(self, offset: usize) -> (r: DiagonalDirection)
        ensures
            r == self.spec_rotate_cw(offset as nat),
    {
        let k: u8 = (offset % 6) as u8;
        Self::from_index(self.index() + 6 - k)
    }

    /// The edge direction next to `self` in counter clockwise order.
    pub fn direction_ccw(self) -> (r: Direction)
        ensures
            r.spec_index() == self.spec_index(),
    {
        match self {
            DiagonalDirection::Right => Direction::TopRight,
            DiagonalDirection::TopRight => Direction::Top,
            DiagonalDirection::TopLeft => Direction::TopLeft,
            DiagonalDirection::Left => Direction::BottomLeft,
            DiagonalDirection::BottomLeft => Direction::Bottom,
            DiagonalDirection::BottomRight => Direction::BottomRight,
        }
    }

    /// The edge direction next to `self` in clockwise order.
    pub fn direction_cw(self) -> (r: Direction)
        ensures
            r.spec_index() == (self.spec_index() + 5) % 6,
    {
        match self {
            DiagonalDirection::Right => Direction::BottomRight,
            DiagonalDirection::TopRight => Direction::TopRight,
            DiagonalDirection::TopLeft => Direction::Top,
            DiagonalDirection::Left => Direction::TopLeft,
            DiagonalDirection::BottomLeft => Direction::BottomLeft,
            DiagonalDirection::BottomRight => Direction::Bottom,
        }
    }

    /// Rotating counter clockwise and then clockwise by the same number of
    /// steps, or the other way round, gives the diagonal back.
    pub proof fn lemma_rotations_cancel(self, offset: nat)
        ensures
            self.spec_rotate_ccw(offset).spec_rotate_cw(offset) == self,
            self.spec_rotate_cw(offset).spec_rotate_ccw(offset) == self,
    {
    }

    /// Rotating by a multiple of six steps, either way, is the identity.
    pub proof fn lemma_full_turns(self, turns: nat)
        ensures
            self.spec_rotate_cw(6 * turns) == self,
            self.spec_rotate_ccw(6 * turns) == self,
    {
    }
}

} // verus!
