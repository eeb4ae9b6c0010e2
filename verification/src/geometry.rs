//! Coordinates and orientations on the puzzle grid.

use vstd::prelude::*;

verus! {

/// Number of cells along each side of the grid.
pub const GRID_SIZE: i32 = 15;

/// A cell coordinate; `x` grows to the right and `y` grows downward.
#[derive(Clone, Copy, Debug, PartialEq, Eq, Structural, Hash)]
pub struct Pos {
    pub x: i32,
    pub y: i32,
}

/// The axis along which the letters of a word advance.
#[derive(Clone, Copy, Debug, PartialEq, Eq, Structural, Hash)]
pub enum Orientation {
    Horizontal,
    Vertical,
}

/// Whether `p` lies on the grid.
pub open spec fn in_grid(p: Pos) -> bool {
    0 <= p.x < 15 && 0 <= p.y < 15
}

/// The coordinate `k` cells away from `p` along `o`.
pub open spec fn along(p: Pos, o: Orientation, k: int) -> Pos {
    match o {
        Orientation::Horizontal => Pos { x: (p.x + k) as i32, y: p.y },
        Orientation::Vertical => Pos { x: p.x, y: (p.y + k) as i32 },
    }
}

/// The coordinate `k` cells away from `p` across `o`.
pub open spec fn across(p: Pos, o: Orientation, k: int) -> Pos {
    match o {
        Orientation::Horizontal => Pos { x: p.x, y: (p.y + k) as i32 },
        Orientation::Vertical => Pos { x: (p.x + k) as i32, y: p.y },
    }
}

/// The component of `p` that changes along `o`.
pub open spec fn coordinate(p: Pos, o: Orientation) -> int {
    match o {
        Orientation::Horizontal => p.x as int,
        Orientation::Vertical => p.y as int,
    }
}

impl Pos {
    /// Component-wise sum.
    pub open spec fn plus(self, other: Pos) -> Pos {
        Pos { x: (self.x + other.x) as i32, y: (self.y + other.y) as i32 }
    }

    /// Component-wise addition of two coordinates.
    pub fn add(self, other: Pos) -> (r: Pos)
        requires
            i32::MIN <= self.x + other.x <= i32::MAX,
            i32::MIN <= self.y + other.y <= i32::MAX,
        ensures
            r.x == self.x + other.x,
            r.y == self.y + other.y,
            r == self.plus(other),
    {
        Pos { x: self.x + other.x, y: self.y + other.y }
    }

    /// Moves `k` cells along `o`.
    pub fn shifted(self, o: Orientation, k: i32) -> (r: Pos)
        requires
            i32::MIN <= coordinate(self, o) + k <= i32::MAX,
        ensures
            r == along(self, o, k as int),
    {
        match o {
            Orientation::Horizontal => Pos { x: self.x + k, y: self.y },
            Orientation::Vertical => Pos { x: self.x, y: self.y + k },
        }
    }

    /// Whether the coordinate lies on the grid.
    pub fn on_grid(self) -> (r: bool)
        ensures
            r == in_grid(self),
    {
        0 <= self.x && self.x < GRID_SIZE && 0 <= self.y && self.y < GRID_SIZE
    }
}

} // verus!
