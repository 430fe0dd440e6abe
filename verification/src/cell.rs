use vstd::prelude::*;

use crate::direction::{dir_index, lemma_dir_index_injective, Direction};
use crate::location::{adjacent, dir_between, Location};

verus! {

/// A directional wall kind on a cell edge: `Full` is impassable, `Half` is
/// passable at extra cost.
#[derive(Clone, Copy, PartialEq, Eq, Structural, Debug)]
pub enum Boundry {
    Full,
    Half,
}

/// One cell of the grid: its own location, a directional boundary slot per
/// direction (`None` means open that way), and the two terrain flags.
#[derive(Clone, Copy, Debug)]
pub struct Cell {
    pub loc: Location,
    pub boundries: [Option<Boundry>; 26],
    pub is_difficult_terrain: bool,
    pub is_obstructed: bool,
}

impl Cell {
    /// The boundary this cell holds in direction `d`.
    pub open spec fn boundary(self, d: Direction) -> Option<Boundry> {
        self.boundries@[dir_index(d)]
    }

    /// The boundary this cell holds facing the neighboring location `nl`;
    /// open when `nl` is not a neighbor at all.
    pub open spec fn toward(self, nl: Location) -> Option<Boundry>
        recommends
            adjacent(self.loc, nl),
    {
        match dir_between(self.loc, nl) {
            Option::Some(d) => self.boundary(d),
            Option::None => Option::None,
        }
    }

    /// A fully open cell at `loc`: no boundaries, ordinary terrain, not
    /// obstructed.
    pub fn new_empty(loc: Location) -> (r: Self)
        ensures
            r.loc == loc,
            forall|d: Direction| #[trigger] r.boundary(d) is None,
            !r.is_difficult_terrain,
            !r.is_obstructed,
    {
        Cell {
            loc,
            boundries: [
                None, None, None, None, None, None, None, None, None, None, None, None, None,
                None, None, None, None, None, None, None, None, None, None, None, None, None,
            ],
            is_difficult_terrain: false,
            is_obstructed: false,
        }
    }

    /// Whether this cell lets a move leave toward the neighboring location
    /// `new_loc`: a `Full` boundary blocks, `Half` or no boundary passes.
    pub fn is_passable_to_neighbor(&self, new_loc: &Location) -> (r: bool)
        requires
            adjacent(self.loc, *new_loc),
        ensures
            r == (self.toward(*new_loc) != Some(Boundry::Full)),
    {
        match self.loc.get_dir_from_loc(new_loc) {
            Some(dir) => match self.boundries[dir.index()] {
                Some(Boundry::Full) => false,
                _ => true,
            },
            None => true,
        }
    }

    /// The boundary part of the cost of leaving toward the neighboring
    /// location `new_loc`: 2 over a `Half` boundary, 1 otherwise. A `Full`
    /// boundary's cost is never consulted, since passability already
    /// excludes it.
    pub fn cost_to_neighbor(&self, new_loc: &Location) -> (r: usize)
        requires
            adjacent(self.loc, *new_loc),
        ensures
            r == (if self.toward(*new_loc) == Some(Boundry::Half) {
                2usize
            } else {
                1usize
            }),
    {
        match self.loc.get_dir_from_loc(new_loc) {
            Some(dir) => match self.boundries[dir.index()] {
                Some(Boundry::Half) => 2,
                _ => 1,
            },
            None => 1,
        }
    }

    /// Inserts or overwrites the boundary kind held in direction `dir`;
    /// every other direction and every other field is untouched.
    pub fn add_boundry(&mut self, dir: Direction, boundry: Boundry)
        ensures
            final(self).boundary(dir) == Some(boundry),
            forall|d2: Direction| d2 != dir ==> #[trigger] final(self).boundary(d2)
                == old(self).boundary(d2),
            final(self).loc == old(self).loc,
            final(self).is_difficult_terrain == old(self).is_difficult_terrain,
            final(self).is_obstructed == old(self).is_obstructed,
    {
        let i = dir.index();
        self.boundries[i] = Some(boundry);
        proof {
            assert forall|d2: Direction| d2 != dir implies #[trigger] self.boundary(d2)
                == old(self).boundary(d2) by {
                if dir_index(d2) == dir_index(dir) {
                    lemma_dir_index_injective(d2, dir);
                }
            }
        }
    }
}

} // verus!
