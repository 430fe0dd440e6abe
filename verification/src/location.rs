use vstd::prelude::*;

use crate::direction::{dir_offset, opposite, Direction};
use crate::direction::{lemma_offset_injective, lemma_opposite_offset};

verus! {

/// A grid coordinate: x and z span a horizontal layer, y is the vertical
/// layer. Ordering and equality are structural.
#[derive(PartialEq, Clone, Copy, Eq, Structural, Hash, Ord, PartialOrd, Debug)]
pub struct Location {
    pub x: i8,
    pub y: i8,
    pub z: i8,
}

/// `b` is the cell one step from `a` in direction `d`.
pub open spec fn is_neighbor(a: Location, b: Location, d: Direction) -> bool {
    &&& b.x as int == a.x as int + dir_offset(d).0
    &&& b.y as int == a.y as int + dir_offset(d).1
    &&& b.z as int == a.z as int + dir_offset(d).2
}

/// `b` is an immediate neighbor of `a` in some direction.
pub open spec fn adjacent(a: Location, b: Location) -> bool {
    exists|d: Direction| is_neighbor(a, b, d)
}

/// The reverse lookup of the offset table: the direction leading from `a`
/// to `b`, or `None` when the two are not immediate neighbors.
pub open spec fn dir_between(a: Location, b: Location) -> Option<Direction> {
    if adjacent(a, b) {
        Some(choose|d: Direction| is_neighbor(a, b, d))
    } else {
        None
    }
}

/// The location one step from `a` in direction `d`, as an application of
/// the offset table. Meaningful whenever the stepped coordinates fit the
/// coordinate type (`step_fits`).
pub open spec fn loc_step(a: Location, d: Direction) -> Location {
    Location {
        x: (a.x as int + dir_offset(d).0) as i8,
        y: (a.y as int + dir_offset(d).1) as i8,
        z: (a.z as int + dir_offset(d).2) as i8,
    }
}

/// Stepping to a neighbor fits in the coordinate type.
pub open spec fn step_fits(a: Location, d: Direction) -> bool {
    &&& i8::MIN <= a.x as int + dir_offset(d).0 <= i8::MAX
    &&& i8::MIN <= a.y as int + dir_offset(d).1 <= i8::MAX
    &&& i8::MIN <= a.z as int + dir_offset(d).2 <= i8::MAX
}

/// The reverse lookup agrees with the forward table: if `b` is `a`'s
/// neighbor in direction `d`, then `d` is the (unique) direction between
/// them.
pub proof fn lemma_dir_between_of_neighbor(a: Location, b: Location, d: Direction)
    requires
        is_neighbor(a, b, d),
    ensures
        dir_between(a, b) == Some(d),
{
    assert(adjacent(a, b));
    let d2 = choose|d2: Direction| is_neighbor(a, b, d2);
    assert(dir_offset(d2).0 == dir_offset(d).0);
    assert(dir_offset(d2).1 == dir_offset(d).1);
    assert(dir_offset(d2).2 == dir_offset(d).2);
    lemma_offset_injective(d, d2);
}

/// A location is never its own neighbor: every offset has a nonzero
/// coordinate.
pub proof fn lemma_neighbor_ne(a: Location, b: Location, d: Direction)
    requires
        is_neighbor(a, b, d),
    ensures
        a != b,
{
    crate::direction::lemma_offset_range(d);
}

/// The round trip through the offset table is the identity: for every
/// direction `d` and location `p` whose step fits the coordinate type,
/// looking up the direction from `p` to its neighbor in `d` gives back
/// exactly `d`.
pub proof fn lemma_direction_round_trip(p: Location, d: Direction)
    requires
        step_fits(p, d),
    ensures
        dir_between(p, loc_step(p, d)) == Some(d),
{
    assert(is_neighbor(p, loc_step(p, d), d));
    lemma_dir_between_of_neighbor(p, loc_step(p, d), d);
}

/// Adjacency is symmetric.
pub proof fn lemma_adjacent_symm(a: Location, b: Location)
    requires
        adjacent(a, b),
    ensures
        adjacent(b, a),
{
    let d = choose|d: Direction| is_neighbor(a, b, d);
    lemma_neighbor_opposite(a, b, d);
}

/// Neighborhood is symmetric through opposite directions.
pub proof fn lemma_neighbor_opposite(a: Location, b: Location, d: Direction)
    requires
        is_neighbor(a, b, d),
    ensures
        is_neighbor(b, a, opposite(d)),
{
    lemma_opposite_offset(d);
}

impl Location {
    pub fn new(x: i8, y: i8, z: i8) -> (r: Self)
        ensures
            r == (Location { x, y, z }),
    {
        Location { x, y, z }
    }

    /// The neighbor of this location one step in direction `dir`, read off
    /// the fixed offset table.
    pub fn get_loc_from_dir(&self, dir: &Direction) -> (r: Self)
        requires
            step_fits(*self, *dir),
        ensures
            r == loc_step(*self, *dir),
            is_neighbor(*self, r, *dir),
    {
        let (dx, dy, dz) = crate::direction::dir_delta(dir);
        Location::new(
            (self.x as i16 + dx) as i8,
            (self.y as i16 + dy) as i8,
            (self.z as i16 + dz) as i8,
        )
    }

    /// The direction leading from this location to `loc`, or `None` when
    /// `loc` is not an immediate neighbor. Built as the reverse of the same
    /// offset table `get_loc_from_dir` uses, so the round trip recovers the
    /// original direction.
    pub fn get_dir_from_loc(&self, loc: &Location) -> (r: Option<Direction>)
        ensures
            r == dir_between(*self, *loc),
    {
        let dx: i16 = loc.x as i16 - self.x as i16;
        let dy: i16 = loc.y as i16 - self.y as i16;
        let dz: i16 = loc.z as i16 - self.z as i16;
        let r: Option<Direction> = match (dx, dy, dz) {
            (-1, 0, -1) => Some(Direction::NW),
            (0, 0, -1) => Some(Direction::N),
            (1, 0, -1) => Some(Direction::NE),
            (-1, 0, 0) => Some(Direction::W),
            (1, 0, 0) => Some(Direction::E),
            (-1, 0, 1) => Some(Direction::SW),
            (0, 0, 1) => Some(Direction::S),
            (1, 0, 1) => Some(Direction::SE),
            (0, 1, 0) => Some(Direction::U),
            (0, -1, 0) => Some(Direction::D),
            (-1, 1, -1) => Some(Direction::UNW),
            (0, 1, -1) => Some(Direction::UN),
            (1, 1, -1) => Some(Direction::UNE),
            (-1, 1, 0) => Some(Direction::UW),
            (1, 1, 0) => Some(Direction::UE),
            (-1, 1, 1) => Some(Direction::USW),
            (0, 1, 1) => Some(Direction::US),
            (1, 1, 1) => Some(Direction::USE),
            (-1, -1, -1) => Some(Direction::DNW),
            (0, -1, -1) => Some(Direction::DN),
            (1, -1, -1) => Some(Direction::DNE),
            (-1, -1, 0) => Some(Direction::DW),
            (1, -1, 0) => Some(Direction::DE),
            (-1, -1, 1) => Some(Direction::DSW),
            (0, -1, 1) => Some(Direction::DS),
            (1, -1, 1) => Some(Direction::DSE),
            _ => None,
        };
        proof {
            match r {
                Some(d) => {
                    assert(is_neighbor(*self, *loc, d));
                    lemma_dir_between_of_neighbor(*self, *loc, d);
                },
                None => {
                    assert forall|d: Direction| !is_neighbor(*self, *loc, d) by {
                        crate::direction::lemma_offset_range(d);
                        if is_neighbor(*self, *loc, d) {
                            assert(dx as int == dir_offset(d).0);
                            assert(dy as int == dir_offset(d).1);
                            assert(dz as int == dir_offset(d).2);
                        }
                    }
                    assert(!adjacent(*self, *loc));
                },
            }
        }
        r
    }
}

} // verus!
