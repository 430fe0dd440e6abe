use vstd::prelude::*;

verus! {

/// The closed set of movement directions: the 8 planar directions, the two
/// vertical ones, and the 16 compound vertical-diagonal directions.
///
/// The planar compass is laid out on the x/z axes (north is decreasing z),
/// while y is the vertical layer (`U` is increasing y).
#[derive(Clone, Copy, PartialEq, Eq, Structural, Hash, Debug)]
pub enum Direction {
    NW,
    N,
    NE,
    W,
    E,
    SW,
    S,
    SE,
    U,
    D,
    UNW,
    UN,
    UNE,
    UW,
    UE,
    USW,
    US,
    USE,
    DNW,
    DN,
    DNE,
    DW,
    DE,
    DSW,
    DS,
    DSE,
}

/// The single offset table every geometric function derives from: the unit
/// coordinate delta `(dx, dy, dz)` of one step in direction `d`.
pub open spec fn dir_offset(d: Direction) -> (int, int, int) {
    match d {
        Direction::NW => (-1, 0, -1),
        Direction::N => (0, 0, -1),
        Direction::NE => (1, 0, -1),
        Direction::W => (-1, 0, 0),
        Direction::E => (1, 0, 0),
        Direction::SW => (-1, 0, 1),
        Direction::S => (0, 0, 1),
        Direction::SE => (1, 0, 1),
        Direction::U => (0, 1, 0),
        Direction::D => (0, -1, 0),
        Direction::UNW => (-1, 1, -1),
        Direction::UN => (0, 1, -1),
        Direction::UNE => (1, 1, -1),
        Direction::UW => (-1, 1, 0),
        Direction::UE => (1, 1, 0),
        Direction::USW => (-1, 1, 1),
        Direction::US => (0, 1, 1),
        Direction::USE => (1, 1, 1),
        Direction::DNW => (-1, -1, -1),
        Direction::DN => (0, -1, -1),
        Direction::DNE => (1, -1, -1),
        Direction::DW => (-1, -1, 0),
        Direction::DE => (1, -1, 0),
        Direction::DSW => (-1, -1, 1),
        Direction::DS => (0, -1, 1),
        Direction::DSE => (1, -1, 1),
    }
}

/// The direction whose offset is the negation of `d`'s offset.
pub open spec fn opposite(d: Direction) -> Direction {
    match d {
        Direction::NW => Direction::SE,
        Direction::N => Direction::S,
        Direction::NE => Direction::SW,
        Direction::W => Direction::E,
        Direction::E => Direction::W,
        Direction::SW => Direction::NE,
        Direction::S => Direction::N,
        Direction::SE => Direction::NW,
        Direction::U => Direction::D,
        Direction::D => Direction::U,
        Direction::UNW => Direction::DSE,
        Direction::UN => Direction::DS,
        Direction::UNE => Direction::DSW,
        Direction::UW => Direction::DE,
        Direction::UE => Direction::DW,
        Direction::USW => Direction::DNE,
        Direction::US => Direction::DN,
        Direction::USE => Direction::DNW,
        Direction::DNW => Direction::USE,
        Direction::DN => Direction::US,
        Direction::DNE => Direction::USW,
        Direction::DW => Direction::UE,
        Direction::DE => Direction::UW,
        Direction::DSW => Direction::UNE,
        Direction::DS => Direction::UN,
        Direction::DSE => Direction::UNW,
    }
}

/// Position of `d` in the fixed enumeration order; used to index per-cell
/// boundary storage.
pub open spec fn dir_index(d: Direction) -> int {
    match d {
        Direction::NW => 0,
        Direction::N => 1,
        Direction::NE => 2,
        Direction::W => 3,
        Direction::E => 4,
        Direction::SW => 5,
        Direction::S => 6,
        Direction::SE => 7,
        Direction::U => 8,
        Direction::D => 9,
        Direction::UNW => 10,
        Direction::UN => 11,
        Direction::UNE => 12,
        Direction::UW => 13,
        Direction::UE => 14,
        Direction::USW => 15,
        Direction::US => 16,
        Direction::USE => 17,
        Direction::DNW => 18,
        Direction::DN => 19,
        Direction::DNE => 20,
        Direction::DW => 21,
        Direction::DE => 22,
        Direction::DSW => 23,
        Direction::DS => 24,
        Direction::DSE => 25,
    }
}

/// The 8 directions that stay within one horizontal layer.
pub open spec fn is_planar(d: Direction) -> bool {
    match d {
        Direction::NW | Direction::N | Direction::NE | Direction::W | Direction::E
            | Direction::SW | Direction::S | Direction::SE => true,
        _ => false,
    }
}

/// The 4 planar diagonals, which are subject to the corner-cutting rule.
pub open spec fn is_diagonal_2d(d: Direction) -> bool {
    match d {
        Direction::NW | Direction::NE | Direction::SW | Direction::SE => true,
        _ => false,
    }
}

/// First flanking cardinal of a planar diagonal: the east/west component.
pub open spec fn flank_ew(d: Direction) -> Direction
    recommends
        is_diagonal_2d(d),
{
    match d {
        Direction::NW | Direction::SW => Direction::W,
        _ => Direction::E,
    }
}

/// Second flanking cardinal of a planar diagonal: the north/south component.
pub open spec fn flank_ns(d: Direction) -> Direction
    recommends
        is_diagonal_2d(d),
{
    match d {
        Direction::NW | Direction::NE => Direction::N,
        _ => Direction::S,
    }
}

/// The fixed enumeration order of the 8 planar directions.
pub open spec fn planar_dirs() -> Seq<Direction> {
    seq![
        Direction::NW,
        Direction::N,
        Direction::NE,
        Direction::W,
        Direction::E,
        Direction::SW,
        Direction::S,
        Direction::SE,
    ]
}

/// The fixed enumeration order of the 18 out-of-layer directions.
pub open spec fn vertical_dirs() -> Seq<Direction> {
    seq![
        Direction::UNW,
        Direction::UN,
        Direction::UNE,
        Direction::UW,
        Direction::U,
        Direction::UE,
        Direction::USW,
        Direction::US,
        Direction::USE,
        Direction::DNW,
        Direction::DN,
        Direction::DNE,
        Direction::DW,
        Direction::D,
        Direction::DE,
        Direction::DSW,
        Direction::DS,
        Direction::DSE,
    ]
}

/// The offset table is exhaustive: every direction's offset is one of the 26
/// listed unit deltas (each coordinate in {-1, 0, 1}, not all zero).
pub proof fn lemma_offset_range(d: Direction)
    ensures
        -1 <= dir_offset(d).0 <= 1,
        -1 <= dir_offset(d).1 <= 1,
        -1 <= dir_offset(d).2 <= 1,
        dir_offset(d) != (0int, 0int, 0int),
{
}

/// The offset table is injective: distinct directions have distinct offsets,
/// so the reverse lookup from a delta is unambiguous.
pub proof fn lemma_offset_injective(d1: Direction, d2: Direction)
    requires
        dir_offset(d1) == dir_offset(d2),
    ensures
        d1 == d2,
{
}

/// Opposite directions carry negated offsets.
pub proof fn lemma_opposite_offset(d: Direction)
    ensures
        dir_offset(opposite(d)).0 == -dir_offset(d).0,
        dir_offset(opposite(d)).1 == -dir_offset(d).1,
        dir_offset(opposite(d)).2 == -dir_offset(d).2,
{
}

/// Taking the opposite twice is the identity.
pub proof fn lemma_opposite_involution(d: Direction)
    ensures
        opposite(opposite(d)) == d,
{
}

/// Every planar direction occurs in `planar_dirs()`, and only planar ones
/// do.
pub proof fn lemma_planar_dirs_complete()
    ensures
        planar_dirs().len() == 8,
        forall|j: int| 0 <= j < 8 ==> is_planar(#[trigger] planar_dirs()[j]),
        forall|d: Direction| is_planar(d) ==> exists|j: int|
            0 <= j < 8 && #[trigger] planar_dirs()[j] == d,
{
    assert forall|d: Direction| is_planar(d) implies exists|j: int|
        0 <= j < 8 && #[trigger] planar_dirs()[j] == d by {
        if d == Direction::NW {
            assert(planar_dirs()[0] == d);
        } else if d == Direction::N {
            assert(planar_dirs()[1] == d);
        } else if d == Direction::NE {
            assert(planar_dirs()[2] == d);
        } else if d == Direction::W {
            assert(planar_dirs()[3] == d);
        } else if d == Direction::E {
            assert(planar_dirs()[4] == d);
        } else if d == Direction::SW {
            assert(planar_dirs()[5] == d);
        } else if d == Direction::S {
            assert(planar_dirs()[6] == d);
        } else {
            assert(planar_dirs()[7] == d);
        }
    }
}

/// The 8 entries of `planar_dirs()` are pairwise distinct.
pub proof fn lemma_planar_dirs_distinct()
    ensures
        forall|j1: int, j2: int|
            0 <= j1 < 8 && 0 <= j2 < 8 && j1 != j2 ==> #[trigger] planar_dirs()[j1]
                != #[trigger] planar_dirs()[j2],
{
    assert(planar_dirs()[0] == Direction::NW);
    assert(planar_dirs()[1] == Direction::N);
    assert(planar_dirs()[2] == Direction::NE);
    assert(planar_dirs()[3] == Direction::W);
    assert(planar_dirs()[4] == Direction::E);
    assert(planar_dirs()[5] == Direction::SW);
    assert(planar_dirs()[6] == Direction::S);
    assert(planar_dirs()[7] == Direction::SE);
}

/// Direction indices are injective and lie below 26.
pub proof fn lemma_dir_index_injective(d1: Direction, d2: Direction)
    requires
        dir_index(d1) == dir_index(d2),
    ensures
        d1 == d2,
{
}

/// The offset table as executable data: the unit delta of one step in
/// direction `d`, widened so that it can be applied to any coordinate
/// without overflow.
pub fn dir_delta(d: &Direction) -> (r: (i16, i16, i16))
    ensures
        r.0 as int == dir_offset(*d).0,
        r.1 as int == dir_offset(*d).1,
        r.2 as int == dir_offset(*d).2,
{
    match *d {
        Direction::NW => (-1, 0, -1),
        Direction::N => (0, 0, -1),
        Direction::NE => (1, 0, -1),
        Direction::W => (-1, 0, 0),
        Direction::E => (1, 0, 0),
        Direction::SW => (-1, 0, 1),
        Direction::S => (0, 0, 1),
        Direction::SE => (1, 0, 1),
        Direction::U => (0, 1, 0),
        Direction::D => (0, -1, 0),
        Direction::UNW => (-1, 1, -1),
        Direction::UN => (0, 1, -1),
        Direction::UNE => (1, 1, -1),
        Direction::UW => (-1, 1, 0),
        Direction::UE => (1, 1, 0),
        Direction::USW => (-1, 1, 1),
        Direction::US => (0, 1, 1),
        Direction::USE => (1, 1, 1),
        Direction::DNW => (-1, -1, -1),
        Direction::DN => (0, -1, -1),
        Direction::DNE => (1, -1, -1),
        Direction::DW => (-1, -1, 0),
        Direction::DE => (1, -1, 0),
        Direction::DSW => (-1, -1, 1),
        Direction::DS => (0, -1, 1),
        Direction::DSE => (1, -1, 1),
    }
}

impl Direction {
    /// The unique direction pointing the other way.
    pub fn get_opposite(&self) -> (r: Direction)
        ensures
            r == opposite(*self),
    {
        match *self {
            Direction::NW => Direction::SE,
            Direction::N => Direction::S,
            Direction::NE => Direction::SW,
            Direction::W => Direction::E,
            Direction::E => Direction::W,
            Direction::SW => Direction::NE,
            Direction::S => Direction::N,
            Direction::SE => Direction::NW,
            Direction::U => Direction::D,
            Direction::D => Direction::U,
            Direction::UNW => Direction::DSE,
            Direction::UN => Direction::DS,
            Direction::UNE => Direction::DSW,
            Direction::UW => Direction::DE,
            Direction::UE => Direction::DW,
            Direction::USW => Direction::DNE,
            Direction::US => Direction::DN,
            Direction::USE => Direction::DNW,
            Direction::DNW => Direction::USE,
            Direction::DN => Direction::US,
            Direction::DNE => Direction::USW,
            Direction::DW => Direction::UE,
            Direction::DE => Direction::UW,
            Direction::DSW => Direction::UNE,
            Direction::DS => Direction::UN,
            Direction::DSE => Direction::UNW,
        }
    }

    /// Position of this direction in the fixed enumeration order.
    pub fn index(&self) -> (r: usize)
        ensures
            r == dir_index(*self),
            r < 26,
    {
        match *self {
            Direction::NW => 0,
            Direction::N => 1,
            Direction::NE => 2,
            Direction::W => 3,
            Direction::E => 4,
            Direction::SW => 5,
            Direction::S => 6,
            Direction::SE => 7,
            Direction::U => 8,
            Direction::D => 9,
            Direction::UNW => 10,
            Direction::UN => 11,
            Direction::UNE => 12,
            Direction::UW => 13,
            Direction::UE => 14,
            Direction::USW => 15,
            Direction::US => 16,
            Direction::USE => 17,
            Direction::DNW => 18,
            Direction::DN => 19,
            Direction::DNE => 20,
            Direction::DW => 21,
            Direction::DE => 22,
            Direction::DSW => 23,
            Direction::DS => 24,
            Direction::DSE => 25,
        }
    }
}

} // verus!
