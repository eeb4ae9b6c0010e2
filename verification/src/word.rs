//! A crossword answer with its clue and its place on the grid.

use vstd::prelude::*;
use crate::geometry::{Orientation, Pos, coordinate, in_grid};
use crate::occupancy::OccupancyMap;

verus! {

/// An answer, its clue, and where the answer's first letter sits.
#[derive(Clone, Debug, PartialEq, Eq, Hash)]
pub struct Word {
    pub text: Vec<char>,
    pub pos: Pos,
    pub orientation: Orientation,
    pub clue: Vec<char>,
}

impl Word {
    /// Whether one of the word's letters sits on `p`.
    pub open spec fn covers(&self, p: Pos) -> bool {
        match self.orientation {
            Orientation::Horizontal => p.y == self.pos.y && 0 <= p.x - self.pos.x
                < self.text@.len(),
            Orientation::Vertical => p.x == self.pos.x && 0 <= p.y - self.pos.y
                < self.text@.len(),
        }
    }

    /// How many letters lie between the anchor and `p`.
    pub open spec fn offset(&self, p: Pos) -> int {
        match self.orientation {
            Orientation::Horizontal => p.x - self.pos.x,
            Orientation::Vertical => p.y - self.pos.y,
        }
    }

    /// The letters of the word, keyed by the coordinate each one sits on.
    pub open spec fn cells(&self) -> Map<Pos, char> {
        Map::new(|p: Pos| self.covers(p), |p: Pos| self.text@[self.offset(p)])
    }

    /// Whether the coordinate of every letter can be represented.
    pub open spec fn representable(&self) -> bool {
        match self.orientation {
            Orientation::Horizontal => self.pos.x + self.text@.len() <= i32::MAX + 1,
            Orientation::Vertical => self.pos.y + self.text@.len() <= i32::MAX + 1,
        }
    }

    /// Whether every letter lies on the grid.
    pub open spec fn fits_grid(&self) -> bool {
        &&& in_grid(self.pos)
        &&& coordinate(self.pos, self.orientation) + self.text@.len() <= 15
    }

    /// A word with the given answer and clue, anchored where the caller says.
    pub fn new(text: Vec<char>, pos: Pos, orientation: Orientation, clue: Vec<char>) -> (w: Word)
        ensures
            w.text == text,
            w.pos == pos,
            w.orientation == orientation,
            w.clue == clue,
    {
        Word { text, pos, orientation, clue }
    }

    /// Projects the letters along the orientation, starting at the anchor.
    pub fn gen_hash(&self) -> (map: OccupancyMap)
        requires
            self.representable(),
        ensures
            map.wf(),
            map@ == self.cells(),
    {
        let mut map = OccupancyMap::new();
        map.merge(self);
        assert(map@ =~= self.cells());
        map
    }

    /// Number of letters of the answer.
    pub fn length(&self) -> (n: usize)
        ensures
            n == self.text@.len(),
    {
        self.text.len()
    }

    /// Re-anchors the word.
    pub fn move_to(&mut self, pos: Pos, orientation: Orientation)
        ensures
            final(self).pos == pos,
            final(self).orientation == orientation,
            final(self).text == old(self).text,
            final(self).clue == old(self).clue,
    {
        self.pos = pos;
        self.orientation = orientation;
    }

    /// Whether the word, placed as it is, stays within the grid.
    pub fn within_bounds(&self) -> (r: bool)
        ensures
            r == self.fits_grid(),
    {
        if self.pos.x < 0 || self.pos.y < 0 || self.pos.x >= 15 || self.pos.y >= 15
            || self.text.len() > 15 {
            return false;
        }
        let n: i32 = self.text.len() as i32;
        match self.orientation {
            Orientation::Horizontal => self.pos.x + n <= 15,
            Orientation::Vertical => self.pos.y + n <= 15,
        }
    }
}

} // verus!
