use vstd::prelude::*;

use crate::cell::{Boundry, Cell};
use crate::direction::{
    dir_offset, flank_ew, flank_ns, is_diagonal_2d, is_planar, lemma_offset_range,
    lemma_planar_dirs_complete, lemma_planar_dirs_distinct, opposite, planar_dirs, vertical_dirs,
    Direction,
};
use crate::location::{
    adjacent, dir_between, is_neighbor, lemma_dir_between_of_neighbor, lemma_neighbor_opposite,
    loc_step, step_fits, Location,
};

verus! {

broadcast use vstd::seq_lib::lemma_seq_contains_after_push;

/// Row-major position of coordinate `(x, y, z)` in a dense cell store with
/// `h` vertical layers and `w` cells of depth per row.
pub open spec fn flat_idx(x: int, y: int, z: int, h: int, w: int) -> int {
    (x * h + y) * w + z
}

/// `flat_idx` lands inside a volume of `l * h * w` cells.
pub proof fn lemma_flat_idx_bounds(x: int, y: int, z: int, l: int, h: int, w: int)
    requires
        0 <= x < l,
        0 <= y < h,
        0 <= z < w,
    ensures
        0 <= flat_idx(x, y, z, h, w) < l * h * w,
{
    assert(0 <= (x * h + y) * w + z < l * h * w) by (nonlinear_arith)
        requires
            0 <= x < l,
            0 <= y < h,
            0 <= z < w,
    ;
}

/// `flat_idx` is injective over in-range coordinates.
pub proof fn lemma_flat_idx_injective(
    x1: int, y1: int, z1: int, x2: int, y2: int, z2: int, h: int, w: int,
)
    requires
        x1 >= 0,
        x2 >= 0,
        0 <= y1 < h,
        0 <= y2 < h,
        0 <= z1 < w,
        0 <= z2 < w,
        flat_idx(x1, y1, z1, h, w) == flat_idx(x2, y2, z2, h, w),
    ensures
        x1 == x2,
        y1 == y2,
        z1 == z2,
{
    assert(x1 == x2 && y1 == y2 && z1 == z2) by (nonlinear_arith)
        requires
            x1 >= 0,
            x2 >= 0,
            0 <= y1 < h,
            0 <= y2 < h,
            0 <= z1 < w,
            0 <= z2 < w,
            (x1 * h + y1) * w + z1 == (x2 * h + y2) * w + z2,
    ;
}

/// A cell holding coordinate `(x, y, z)` with no boundaries and neither
/// terrain flag set.
pub open spec fn is_empty_cell_at(c: Cell, x: int, y: int, z: int) -> bool {
    &&& c.loc == (Location { x: x as i8, y: y as i8, z: z as i8 })
    &&& forall|d: Direction| #[trigger] c.boundary(d) is None
    &&& !c.is_difficult_terrain
    &&& !c.is_obstructed
}

/// A bounded volume of cells: `length` along x, `height` layers along y,
/// `width` along z, with one cell per in-bounds location, stored densely in
/// row-major order. A planar grid is simply one with a single layer
/// (`height` of 1).
///
/// Every operation assumes and preserves `wf()`, which `new` establishes.
pub struct Grid {
    pub width: i8,
    pub length: i8,
    pub height: i8,
    pub cells: Vec<Cell>,
    pub dirs_2d: Vec<Direction>,
    pub dirs_3d: Vec<Direction>,
}

impl Grid {
    /// Number of cells a well-formed grid of these dimensions holds.
    pub open spec fn volume(self) -> int {
        self.length as int * self.height as int * self.width as int
    }

    /// Half-open range check on every axis.
    pub open spec fn loc_in_bounds(self, l: Location) -> bool {
        &&& 0 <= l.x as int && (l.x as int) < self.length as int
        &&& 0 <= l.y as int && (l.y as int) < self.height as int
        &&& 0 <= l.z as int && (l.z as int) < self.width as int
    }

    /// Position of `l`'s cell in the dense store.
    pub open spec fn idx_of(self, l: Location) -> int {
        flat_idx(l.x as int, l.y as int, l.z as int, self.height as int, self.width as int)
    }

    /// The cell recorded for location `l`.
    pub open spec fn cell_of(self, l: Location) -> Cell
        recommends
            self.loc_in_bounds(l),
    {
        self.cells@[self.idx_of(l)]
    }

    /// The boundary the cell at `l` holds in direction `d`.
    pub open spec fn boundary_of(self, l: Location, d: Direction) -> Option<Boundry>
        recommends
            self.loc_in_bounds(l),
    {
        self.cell_of(l).boundary(d)
    }

    /// Whether the cell at `l` is difficult terrain.
    pub open spec fn difficult_at(self, l: Location) -> bool
        recommends
            self.loc_in_bounds(l),
    {
        self.cell_of(l).is_difficult_terrain
    }

    /// Whether the cell at `l` is obstructed.
    pub open spec fn obstructed_at(self, l: Location) -> bool
        recommends
            self.loc_in_bounds(l),
    {
        self.cell_of(l).is_obstructed
    }

    /// Well-formedness: non-negative dimensions, a dense cell store of
    /// exactly one cell per in-bounds location (each knowing its own
    /// location), and the two fixed direction lists.
    pub open spec fn wf(self) -> bool {
        &&& self.length >= 0
        &&& self.height >= 0
        &&& self.width >= 0
        &&& self.cells@.len() == self.volume()
        &&& forall|l: Location| self.loc_in_bounds(l) ==> (#[trigger] self.cell_of(l)).loc == l
        &&& self.dirs_2d@ == planar_dirs()
        &&& self.dirs_3d@ == vertical_dirs()
    }

    /// Stepping from `a` in direction `d` stays inside the grid.
    pub open spec fn step_in_bounds(self, a: Location, d: Direction) -> bool {
        &&& 0 <= a.x as int + dir_offset(d).0 && a.x as int + dir_offset(d).0 < self.length as int
        &&& 0 <= a.y as int + dir_offset(d).1 && a.y as int + dir_offset(d).1 < self.height as int
        &&& 0 <= a.z as int + dir_offset(d).2 && a.z as int + dir_offset(d).2 < self.width as int
    }

    /// From an in-bounds location, one step in any direction fits the
    /// coordinate type.
    pub proof fn lemma_in_bounds_step_fits(self, l: Location, d: Direction)
        requires
            self.loc_in_bounds(l),
        ensures
            step_fits(l, d),
    {
        lemma_offset_range(d);
    }

    pub fn in_bounds(&self, loc: &Location) -> (r: bool)
        ensures
            r == self.loc_in_bounds(*loc),
    {
        loc.x >= 0 && loc.x < self.length && loc.y >= 0 && loc.y < self.height && loc.z >= 0
            && loc.z < self.width
    }

    /// Index of an in-bounds location's cell in the dense store.
    pub(crate) fn cell_index(&self, loc: &Location) -> (r: usize)
        requires
            self.wf(),
            self.loc_in_bounds(*loc),
        ensures
            r == self.idx_of(*loc),
            r < self.cells@.len(),
    {
        proof {
            lemma_flat_idx_bounds(
                loc.x as int,
                loc.y as int,
                loc.z as int,
                self.length as int,
                self.height as int,
                self.width as int,
            );
            assert((loc.x as int) * (self.height as int) <= 127 * 127) by (nonlinear_arith)
                requires
                    0 <= loc.x as int <= 127,
                    0 <= self.height as int <= 127,
            ;
            assert(((loc.x as int) * (self.height as int) + (loc.y as int)) * (self.width as int)
                <= (127 * 127 + 127) * 127) by (nonlinear_arith)
                requires
                    0 <= (loc.x as int) * (self.height as int) + (loc.y as int) <= 127 * 127 + 127,
                    0 <= self.width as int <= 127,
            ;
        }
        ((loc.x as usize) * (self.height as usize) + (loc.y as usize)) * (self.width as usize)
            + (loc.z as usize)
    }

    /// Builds a fully open grid: every in-bounds location gets an empty
    /// cell, and the direction lists hold the 8 planar and 18 out-of-layer
    /// directions in their fixed order.
    pub fn new(length: i8, width: i8, height: i8) -> (r: Self)
        requires
            length >= 0,
            width >= 0,
            height >= 0,
        ensures
            r.wf(),
            r.length == length,
            r.width == width,
            r.height == height,
            forall|l: Location, d: Direction| r.loc_in_bounds(l) ==> (#[trigger] r.boundary_of(
                l,
                d,
            )) is None,
            forall|l: Location| r.loc_in_bounds(l) ==> !(#[trigger] r.difficult_at(l)),
            forall|l: Location| r.loc_in_bounds(l) ==> !(#[trigger] r.obstructed_at(l)),
    {
        let mut cells: Vec<Cell> = Vec::new();
        let mut x: i8 = 0;
        while x < length
            invariant
                0 <= x <= length,
                height >= 0,
                width >= 0,
                cells@.len() == x as int * (height as int) * (width as int),
                forall|xi: int, yi: int, zi: int|
                    0 <= xi && 0 <= yi < height as int && 0 <= zi < width as int
                        && #[trigger] flat_idx(xi, yi, zi, height as int, width as int)
                        < cells@.len() ==> is_empty_cell_at(
                        cells@[flat_idx(xi, yi, zi, height as int, width as int)],
                        xi,
                        yi,
                        zi,
                    ),
            decreases length - x,
        {
            let ghost len_x = cells@.len() as int;
            let mut y: i8 = 0;
            while y < height
                invariant
                    0 <= x < length,
                    0 <= y <= height,
                    width >= 0,
                    cells@.len() == x as int * (height as int) * (width as int) + y as int * (
                    width as int),
                    forall|xi: int, yi: int, zi: int|
                        0 <= xi && 0 <= yi < height as int && 0 <= zi < width as int
                            && #[trigger] flat_idx(xi, yi, zi, height as int, width as int)
                            < cells@.len() ==> is_empty_cell_at(
                            cells@[flat_idx(xi, yi, zi, height as int, width as int)],
                            xi,
                            yi,
                            zi,
                        ),
                decreases height - y,
            {
                let mut z: i8 = 0;
                while z < width
                    invariant
                        0 <= x < length,
                        0 <= y < height,
                        0 <= z <= width,
                        cells@.len() == x as int * (height as int) * (width as int) + y as int * (
                        width as int) + z as int,
                        forall|xi: int, yi: int, zi: int|
                            0 <= xi && 0 <= yi < height as int && 0 <= zi < width as int
                                && #[trigger] flat_idx(xi, yi, zi, height as int, width as int)
                                < cells@.len() ==> is_empty_cell_at(
                                cells@[flat_idx(xi, yi, zi, height as int, width as int)],
                                xi,
                                yi,
                                zi,
                            ),
                    decreases width - z,
                {
                    proof {
                        assert(flat_idx(x as int, y as int, z as int, height as int, width as int)
                            == x as int * (height as int) * (width as int) + y as int * (
                        width as int) + z as int) by (nonlinear_arith);
                    }
                    let c = Cell::new_empty(Location::new(x, y, z));
                    cells.push(c);
                    proof {
                        assert forall|xi: int, yi: int, zi: int|
                            0 <= xi && 0 <= yi < height as int && 0 <= zi < width as int
                                && #[trigger] flat_idx(xi, yi, zi, height as int, width as int)
                                < cells@.len() implies is_empty_cell_at(
                            cells@[flat_idx(xi, yi, zi, height as int, width as int)],
                            xi,
                            yi,
                            zi,
                        ) by {
                            let fi = flat_idx(xi, yi, zi, height as int, width as int);
                            if fi == cells@.len() - 1 {
                                lemma_flat_idx_injective(
                                    xi,
                                    yi,
                                    zi,
                                    x as int,
                                    y as int,
                                    z as int,
                                    height as int,
                                    width as int,
                                );
                            }
                        }
                    }
                    z = z + 1;
                }
                proof {
                    assert(x as int * (height as int) * (width as int) + y as int * (width as int)
                        + width as int == x as int * (height as int) * (width as int) + (y as int
                        + 1) * (width as int)) by (nonlinear_arith);
                }
                y = y + 1;
            }
            proof {
                assert(x as int * (height as int) * (width as int) + height as int * (width as int)
                    == (x as int + 1) * (height as int) * (width as int)) by (nonlinear_arith);
            }
            x = x + 1;
        }
        let mut dirs_2d: Vec<Direction> = Vec::new();
        dirs_2d.push(Direction::NW);
        dirs_2d.push(Direction::N);
        dirs_2d.push(Direction::NE);
        dirs_2d.push(Direction::W);
        dirs_2d.push(Direction::E);
        dirs_2d.push(Direction::SW);
        dirs_2d.push(Direction::S);
        dirs_2d.push(Direction::SE);
        proof {
            assert(dirs_2d@ =~= planar_dirs());
        }
        let mut dirs_3d: Vec<Direction> = Vec::new();
        dirs_3d.push(Direction::UNW);
        dirs_3d.push(Direction::UN);
        dirs_3d.push(Direction::UNE);
        dirs_3d.push(Direction::UW);
        dirs_3d.push(Direction::U);
        dirs_3d.push(Direction::UE);
        dirs_3d.push(Direction::USW);
        dirs_3d.push(Direction::US);
        dirs_3d.push(Direction::USE);
        dirs_3d.push(Direction::DNW);
        dirs_3d.push(Direction::DN);
        dirs_3d.push(Direction::DNE);
        dirs_3d.push(Direction::DW);
        dirs_3d.push(Direction::D);
        dirs_3d.push(Direction::DE);
        dirs_3d.push(Direction::DSW);
        dirs_3d.push(Direction::DS);
        dirs_3d.push(Direction::DSE);
        proof {
            assert(dirs_3d@ =~= vertical_dirs());
        }
        let r = Grid { height, width, length, cells, dirs_2d, dirs_3d };
        proof {
            assert forall|l: Location| r.loc_in_bounds(l) implies (#[trigger] r.cell_of(l)).loc
                == l && is_empty_cell_at(r.cell_of(l), l.x as int, l.y as int, l.z as int) by {
                lemma_flat_idx_bounds(
                    l.x as int,
                    l.y as int,
                    l.z as int,
                    r.length as int,
                    r.height as int,
                    r.width as int,
                );
                assert(is_empty_cell_at(
                    r.cells@[flat_idx(l.x as int, l.y as int, l.z as int, r.height as int,
                    r.width as int)],
                    l.x as int,
                    l.y as int,
                    l.z as int,
                ));
            }
        }
        r
    }
}

impl Grid {
    /// Locations map injectively to cell indices.
    pub proof fn lemma_idx_injective(self, a: Location, b: Location)
        requires
            self.loc_in_bounds(a),
            self.loc_in_bounds(b),
            self.idx_of(a) == self.idx_of(b),
        ensures
            a == b,
    {
        lemma_flat_idx_injective(
            a.x as int, a.y as int, a.z as int,
            b.x as int, b.y as int, b.z as int,
            self.height as int, self.width as int,
        );
    }

    /// An in-bounds location's cell index lies inside the dense store.
    pub proof fn lemma_idx_in_range(self, l: Location)
        requires
            self.loc_in_bounds(l),
            self.cells@.len() == self.volume(),
        ensures
            0 <= self.idx_of(l) < self.cells@.len(),
    {
        lemma_flat_idx_bounds(
            l.x as int, l.y as int, l.z as int,
            self.length as int, self.height as int, self.width as int,
        );
    }

    /// Replacing the single cell at `tgt` (with one that still knows its
    /// location) keeps the grid well formed and leaves every other cell as
    /// it was.
    proof fn lemma_cells_update_frame(pre: Grid, post: Grid, tgt: Location, c: Cell)
        requires
            pre.wf(),
            post.length == pre.length,
            post.height == pre.height,
            post.width == pre.width,
            post.dirs_2d == pre.dirs_2d,
            post.dirs_3d == pre.dirs_3d,
            pre.loc_in_bounds(tgt),
            c.loc == tgt,
            post.cells@ == pre.cells@.update(pre.idx_of(tgt), c),
        ensures
            post.wf(),
            post.cell_of(tgt) == c,
            forall|l2: Location|
                pre.loc_in_bounds(l2) && l2 != tgt ==> #[trigger] post.cell_of(l2)
                    == pre.cell_of(l2),
    {
        pre.lemma_idx_in_range(tgt);
        assert forall|l2: Location| pre.loc_in_bounds(l2) && l2 != tgt implies
            #[trigger] post.cell_of(l2) == pre.cell_of(l2) by {
            pre.lemma_idx_in_range(l2);
            if pre.idx_of(l2) == pre.idx_of(tgt) {
                pre.lemma_idx_injective(l2, tgt);
            }
        }
        assert forall|l2: Location| post.loc_in_bounds(l2) implies (
        #[trigger] post.cell_of(l2)).loc == l2 by {
            pre.lemma_idx_in_range(l2);
            if pre.idx_of(l2) == pre.idx_of(tgt) {
                pre.lemma_idx_injective(l2, tgt);
            } else {
                assert(post.cell_of(l2) == pre.cell_of(l2));
                assert(pre.cell_of(l2).loc == l2);
            }
        }
    }

    /// Sets the boundary kind `boundry` on `loc`'s cell facing `dir` and,
    /// when the neighbor one step that way is also in bounds, mirrors the
    /// same kind on the neighbor facing back. A no-op when `loc` itself is
    /// out of bounds. Nothing else changes: dimensions, every other
    /// boundary slot, and both terrain flags everywhere are kept.
    pub fn add_cell_boundry_and_adjacent(&mut self, loc: &Location, dir: Direction, boundry: Boundry)
        requires
            old(self).wf(),
        ensures
            final(self).wf(),
            final(self).length == old(self).length,
            final(self).height == old(self).height,
            final(self).width == old(self).width,
            !old(self).loc_in_bounds(*loc) ==> *final(self) == *old(self),
            old(self).loc_in_bounds(*loc) ==> {
                &&& final(self).boundary_of(*loc, dir) == Some(boundry)
                &&& (old(self).step_in_bounds(*loc, dir) ==> final(self).boundary_of(
                    loc_step(*loc, dir),
                    opposite(dir),
                ) == Some(boundry))
                &&& forall|l2: Location, d2: Direction|
                    old(self).loc_in_bounds(l2) && !(l2 == *loc && d2 == dir) && !(old(self).step_in_bounds(
                        *loc,
                        dir,
                    ) && l2 == loc_step(*loc, dir) && d2 == opposite(dir))
                        ==> #[trigger] final(self).boundary_of(l2, d2) == old(self).boundary_of(l2, d2)
                &&& forall|l2: Location|
                    old(self).loc_in_bounds(l2) ==> #[trigger] final(self).difficult_at(l2)
                        == old(self).difficult_at(l2)
                &&& forall|l2: Location|
                    old(self).loc_in_bounds(l2) ==> #[trigger] final(self).obstructed_at(l2)
                        == old(self).obstructed_at(l2)
            },
    {
        if !self.in_bounds(loc) {
            return;
        }
        proof {
            self.lemma_in_bounds_step_fits(*loc, dir);
            old(self).lemma_idx_in_range(*loc);
            assert(old(self).cell_of(*loc).loc == *loc);
        }
        let i = self.cell_index(loc);
        let mut c = self.cells[i];
        c.add_boundry(dir, boundry);
        self.cells[i] = c;
        proof {
            Self::lemma_cells_update_frame(*old(self), *self, *loc, c);
        }
        let ghost mid = *self;
        let opposite_dir = dir.get_opposite();
        let nb_loc = loc.get_loc_from_dir(&dir);
        if self.in_bounds(&nb_loc) {
            proof {
                crate::location::lemma_neighbor_ne(*loc, nb_loc, dir);
                mid.lemma_idx_in_range(nb_loc);
                assert(mid.cell_of(nb_loc).loc == nb_loc);
            }
            let j = self.cell_index(&nb_loc);
            let mut c2 = self.cells[j];
            c2.add_boundry(opposite_dir, boundry);
            self.cells[j] = c2;
            proof {
                Self::lemma_cells_update_frame(mid, *self, nb_loc, c2);
                assert(self.cell_of(*loc) == mid.cell_of(*loc));
                assert forall|l2: Location, d2: Direction|
                    old(self).loc_in_bounds(l2) && !(l2 == *loc && d2 == dir) && !(old(self).step_in_bounds(
                        *loc,
                        dir,
                    ) && l2 == loc_step(*loc, dir) && d2 == opposite(dir))
                        implies #[trigger] self.boundary_of(l2, d2) == old(self).boundary_of(l2, d2) by {
                    if l2 == nb_loc {
                        assert(self.cell_of(l2) == c2);
                    } else if l2 == *loc {
                        assert(self.cell_of(l2) == c);
                    } else {
                        assert(self.cell_of(l2) == mid.cell_of(l2));
                        assert(mid.cell_of(l2) == old(self).cell_of(l2));
                    }
                }
                assert forall|l2: Location| old(self).loc_in_bounds(l2) implies
                    #[trigger] self.difficult_at(l2) == old(self).difficult_at(l2)
                    && self.obstructed_at(l2) == old(self).obstructed_at(l2) by {
                    if l2 == nb_loc {
                        assert(self.cell_of(l2) == c2);
                    } else if l2 == *loc {
                        assert(self.cell_of(l2) == c);
                    } else {
                        assert(self.cell_of(l2) == mid.cell_of(l2));
                        assert(mid.cell_of(l2) == old(self).cell_of(l2));
                    }
                }
            }
        } else {
            proof {
                assert forall|l2: Location| old(self).loc_in_bounds(l2) && l2 != *loc implies
                    #[trigger] self.cell_of(l2) == old(self).cell_of(l2) by {}
            }
        }
    }

    /// Flips the difficult-terrain flag of the cell at `loc`; a no-op when
    /// `loc` is out of bounds. Nothing else changes.
    pub fn toggle_cell_difficult_terrain(&mut self, loc: &Location)
        requires
            old(self).wf(),
        ensures
            final(self).wf(),
            final(self).length == old(self).length,
            final(self).height == old(self).height,
            final(self).width == old(self).width,
            !old(self).loc_in_bounds(*loc) ==> *final(self) == *old(self),
            old(self).loc_in_bounds(*loc) ==> {
                &&& final(self).difficult_at(*loc) == !old(self).difficult_at(*loc)
                &&& forall|l2: Location|
                    old(self).loc_in_bounds(l2) && l2 != *loc ==> #[trigger] final(self).difficult_at(l2)
                        == old(self).difficult_at(l2)
                &&& forall|l2: Location|
                    old(self).loc_in_bounds(l2) ==> #[trigger] final(self).obstructed_at(l2)
                        == old(self).obstructed_at(l2)
                &&& forall|l2: Location, d2: Direction|
                    old(self).loc_in_bounds(l2) ==> #[trigger] final(self).boundary_of(l2, d2)
                        == old(self).boundary_of(l2, d2)
            },
    {
        if !self.in_bounds(loc) {
            return;
        }
        proof {
            old(self).lemma_idx_in_range(*loc);
            assert(old(self).cell_of(*loc).loc == *loc);
        }
        let i = self.cell_index(loc);
        let mut c = self.cells[i];
        c.is_difficult_terrain = !c.is_difficult_terrain;
        self.cells[i] = c;
        proof {
            Self::lemma_cells_update_frame(*old(self), *self, *loc, c);
        }
    }

    /// Flips the obstruction flag of the cell at `loc`; a no-op when `loc`
    /// is out of bounds. Nothing else changes.
    pub fn toggle_cell_obstruction(&mut self, loc: &Location)
        requires
            old(self).wf(),
        ensures
            final(self).wf(),
            final(self).length == old(self).length,
            final(self).height == old(self).height,
            final(self).width == old(self).width,
            !old(self).loc_in_bounds(*loc) ==> *final(self) == *old(self),
            old(self).loc_in_bounds(*loc) ==> {
                &&& final(self).obstructed_at(*loc) == !old(self).obstructed_at(*loc)
                &&& forall|l2: Location|
                    old(self).loc_in_bounds(l2) && l2 != *loc ==> #[trigger] final(self).obstructed_at(l2)
                        == old(self).obstructed_at(l2)
                &&& forall|l2: Location|
                    old(self).loc_in_bounds(l2) ==> #[trigger] final(self).difficult_at(l2)
                        == old(self).difficult_at(l2)
                &&& forall|l2: Location, d2: Direction|
                    old(self).loc_in_bounds(l2) ==> #[trigger] final(self).boundary_of(l2, d2)
                        == old(self).boundary_of(l2, d2)
            },
    {
        if !self.in_bounds(loc) {
            return;
        }
        proof {
            old(self).lemma_idx_in_range(*loc);
            assert(old(self).cell_of(*loc).loc == *loc);
        }
        let i = self.cell_index(loc);
        let mut c = self.cells[i];
        c.is_obstructed = !c.is_obstructed;
        self.cells[i] = c;
        proof {
            Self::lemma_cells_update_frame(*old(self), *self, *loc, c);
        }
    }

    /// A mutable borrow of the cell at `loc`, or `None` out of bounds.
    pub fn get_mut_cell(&mut self, loc: &Location) -> (r: Option<&mut Cell>)
        requires
            old(self).wf(),
        ensures
            old(self).loc_in_bounds(*loc) <==> r is Some,
            !old(self).loc_in_bounds(*loc) ==> *final(self) == *old(self),
            r matches Some(c) ==> *c == old(self).cell_of(*loc) && final(self).cells@ == old(
                self,
            ).cells@.update(old(self).idx_of(*loc), *final(c)),
            final(self).length == old(self).length,
            final(self).height == old(self).height,
            final(self).width == old(self).width,
            final(self).dirs_2d == old(self).dirs_2d,
            final(self).dirs_3d == old(self).dirs_3d,
    {
        if self.in_bounds(loc) {
            let i = self.cell_index(loc);
            Some(&mut self.cells[i])
        } else {
            None
        }
    }

    /// A shared borrow of the cell at `loc`, or `None` out of bounds.
    pub fn get_ref_cell(&self, loc: &Location) -> (r: Option<&Cell>)
        requires
            self.wf(),
        ensures
            match r {
                Some(c) => self.loc_in_bounds(*loc) && *c == self.cell_of(*loc),
                None => !self.loc_in_bounds(*loc),
            },
    {
        if self.in_bounds(loc) {
            let i = self.cell_index(loc);
            Some(&self.cells[i])
        } else {
            None
        }
    }
}

impl Grid {
    /// A single directed edge `a -> b` between adjacent in-bounds cells is
    /// open: the destination is not obstructed and neither side holds a
    /// `Full` boundary across the shared edge.
    pub open spec fn edge_open(self, a: Location, b: Location) -> bool
        recommends
            adjacent(a, b),
    {
        &&& self.loc_in_bounds(a)
        &&& self.loc_in_bounds(b)
        &&& !self.obstructed_at(b)
        &&& self.cell_of(a).toward(b) != Some(Boundry::Full)
        &&& self.cell_of(b).toward(a) != Some(Boundry::Full)
    }

    /// The boundary part of the cost of the edge `a -> b`: 2 when either
    /// side holds a `Half` boundary across it, 1 otherwise.
    pub open spec fn edge_base_cost(self, a: Location, b: Location) -> nat
        recommends
            adjacent(a, b),
    {
        if self.cell_of(a).toward(b) == Some(Boundry::Half) || self.cell_of(b).toward(a) == Some(
            Boundry::Half,
        ) {
            2
        } else {
            1
        }
    }

    /// Whether a move from `a` one step in direction `d` is allowed. A
    /// planar diagonal requires all five edges of its corner square to be
    /// open (no corner-cutting); every other direction, the vertical and
    /// compound vertical-diagonal ones included, only needs its direct
    /// edge, which is this model's documented volumetric simplification.
    pub open spec fn passable_toward(self, a: Location, d: Direction) -> bool {
        let b = loc_step(a, d);
        if is_diagonal_2d(d) {
            let c1 = loc_step(a, flank_ew(d));
            let c2 = loc_step(a, flank_ns(d));
            self.edge_open(a, c1) && self.edge_open(a, c2) && self.edge_open(c1, b)
                && self.edge_open(c2, b) && self.edge_open(a, b)
        } else {
            self.edge_open(a, b)
        }
    }

    /// The cost of a move from `a` one step in direction `d`: 1 only when
    /// every contributing boundary edge costs 1 and the destination is not
    /// difficult terrain; otherwise 2. Difficult terrain and half walls
    /// saturate at 2, they never stack.
    pub open spec fn move_cost(self, a: Location, d: Direction) -> nat {
        let b = loc_step(a, d);
        if is_diagonal_2d(d) {
            let c1 = loc_step(a, flank_ew(d));
            let c2 = loc_step(a, flank_ns(d));
            if self.edge_base_cost(a, c1) == 1 && self.edge_base_cost(a, c2) == 1
                && self.edge_base_cost(c1, b) == 1 && self.edge_base_cost(c2, b) == 1
                && self.edge_base_cost(a, b) == 1 && !self.difficult_at(b) {
                1
            } else {
                2
            }
        } else {
            if self.edge_base_cost(a, b) == 1 && !self.difficult_at(b) {
                1
            } else {
                2
            }
        }
    }

    /// The cost of the move between the adjacent pair `a -> b`.
    pub open spec fn move_cost_between(self, a: Location, b: Location) -> nat
        recommends
            adjacent(a, b),
    {
        match dir_between(a, b) {
            Some(d) => self.move_cost(a, d),
            None => 1,
        }
    }

    /// Defensive pairwise passability of the edge `a -> b`: obstruction of
    /// the destination and `Full` boundaries on both sides are all checked.
    fn is_passable_to_neighbor_2d(&self, current_loc: &Location, new_loc: &Location) -> (r: bool)
        requires
            self.wf(),
            self.loc_in_bounds(*current_loc),
            self.loc_in_bounds(*new_loc),
            adjacent(*current_loc, *new_loc),
        ensures
            r == self.edge_open(*current_loc, *new_loc),
    {
        proof {
            crate::location::lemma_adjacent_symm(*current_loc, *new_loc);
        }
        let i = self.cell_index(new_loc);
        let neighbor_cell = self.cells[i];
        proof {
            assert(neighbor_cell == self.cell_of(*new_loc));
        }
        if neighbor_cell.is_obstructed {
            return false;
        }
        let passable_from_new_loc = neighbor_cell.is_passable_to_neighbor(current_loc);
        let j = self.cell_index(current_loc);
        let current_cell = self.cells[j];
        proof {
            assert(current_cell == self.cell_of(*current_loc));
        }
        let passable_from_current_loc = current_cell.is_passable_to_neighbor(new_loc);
        passable_from_current_loc && passable_from_new_loc
    }

    /// A planar diagonal move with its two flanking cardinals: open only
    /// when all five surrounding edges are open.
    fn passable_diagonal_neighbor(
        &self,
        current_loc: &Location,
        diag_loc: Location,
        cardinal_1: &Location,
        cardinal_2: &Location,
    ) -> (r: Option<Location>)
        requires
            self.wf(),
            self.loc_in_bounds(*current_loc),
            self.loc_in_bounds(diag_loc),
            self.loc_in_bounds(*cardinal_1),
            self.loc_in_bounds(*cardinal_2),
            adjacent(*current_loc, *cardinal_1),
            adjacent(*current_loc, *cardinal_2),
            adjacent(*cardinal_1, diag_loc),
            adjacent(*cardinal_2, diag_loc),
            adjacent(*current_loc, diag_loc),
        ensures
            self.edge_open(*current_loc, *cardinal_1) && self.edge_open(*current_loc, *cardinal_2)
                && self.edge_open(*cardinal_1, diag_loc) && self.edge_open(*cardinal_2, diag_loc)
                && self.edge_open(*current_loc, diag_loc) ==> r == Some(diag_loc),
            !(self.edge_open(*current_loc, *cardinal_1) && self.edge_open(
                *current_loc,
                *cardinal_2,
            ) && self.edge_open(*cardinal_1, diag_loc) && self.edge_open(*cardinal_2, diag_loc)
                && self.edge_open(*current_loc, diag_loc)) ==> r is None,
    {
        if self.is_passable_to_neighbor_2d(current_loc, cardinal_1)
            && self.is_passable_to_neighbor_2d(current_loc, cardinal_2)
            && self.is_passable_to_neighbor_2d(cardinal_1, &diag_loc)
            && self.is_passable_to_neighbor_2d(cardinal_2, &diag_loc)
            && self.is_passable_to_neighbor_2d(current_loc, &diag_loc)
        {
            Some(diag_loc)
        } else {
            None
        }
    }

    /// A cardinal (or vertical, or compound) move: open when its direct
    /// edge is open.
    fn passable_cardinal_neighbor(&self, current_loc: &Location, cardinal_loc: Location) -> (r:
        Option<Location>)
        requires
            self.wf(),
            self.loc_in_bounds(*current_loc),
            self.loc_in_bounds(cardinal_loc),
            adjacent(*current_loc, cardinal_loc),
        ensures
            self.edge_open(*current_loc, cardinal_loc) ==> r == Some(cardinal_loc),
            !self.edge_open(*current_loc, cardinal_loc) ==> r is None,
    {
        if self.is_passable_to_neighbor_2d(current_loc, &cardinal_loc) {
            Some(cardinal_loc)
        } else {
            None
        }
    }

    /// The neighbor one step from `current` in `direction` when that move
    /// is allowed, `None` otherwise (out-of-bounds ends included).
    pub fn try_get_passable_neighbor(&self, current: &Location, direction: &Direction) -> (r:
        Option<Location>)
        requires
            self.wf(),
        ensures
            self.passable_toward(*current, *direction) ==> r == Some(loc_step(*current, *direction)),
            !self.passable_toward(*current, *direction) ==> r is None,
    {
        if !self.in_bounds(current) {
            return None;
        }
        proof {
            self.lemma_in_bounds_step_fits(*current, *direction);
            self.lemma_in_bounds_step_fits(*current, Direction::N);
            self.lemma_in_bounds_step_fits(*current, Direction::E);
            self.lemma_in_bounds_step_fits(*current, Direction::S);
            self.lemma_in_bounds_step_fits(*current, Direction::W);
        }
        let nb = current.get_loc_from_dir(direction);
        if !self.in_bounds(&nb) {
            return None;
        }
        match *direction {
            Direction::NW => {
                let c1 = current.get_loc_from_dir(&Direction::W);
                let c2 = current.get_loc_from_dir(&Direction::N);
                proof {
                    assert(is_neighbor(c1, nb, Direction::N));
                    assert(is_neighbor(c2, nb, Direction::W));
                }
                self.passable_diagonal_neighbor(current, nb, &c1, &c2)
            },
            Direction::NE => {
                let c1 = current.get_loc_from_dir(&Direction::E);
                let c2 = current.get_loc_from_dir(&Direction::N);
                proof {
                    assert(is_neighbor(c1, nb, Direction::N));
                    assert(is_neighbor(c2, nb, Direction::E));
                }
                self.passable_diagonal_neighbor(current, nb, &c1, &c2)
            },
            Direction::SW => {
                let c1 = current.get_loc_from_dir(&Direction::W);
                let c2 = current.get_loc_from_dir(&Direction::S);
                proof {
                    assert(is_neighbor(c1, nb, Direction::S));
                    assert(is_neighbor(c2, nb, Direction::W));
                }
                self.passable_diagonal_neighbor(current, nb, &c1, &c2)
            },
            Direction::SE => {
                let c1 = current.get_loc_from_dir(&Direction::E);
                let c2 = current.get_loc_from_dir(&Direction::S);
                proof {
                    assert(is_neighbor(c1, nb, Direction::S));
                    assert(is_neighbor(c2, nb, Direction::E));
                }
                self.passable_diagonal_neighbor(current, nb, &c1, &c2)
            },
            _ => self.passable_cardinal_neighbor(current, nb),
        }
    }

    /// The boundary part of the cost of moving between the adjacent pair
    /// `current_loc -> new_loc`.
    fn boundry_movement_cost_2d(&self, current_loc: &Location, new_loc: &Location) -> (r: usize)
        requires
            self.wf(),
            self.loc_in_bounds(*current_loc),
            self.loc_in_bounds(*new_loc),
            adjacent(*current_loc, *new_loc),
        ensures
            r == self.edge_base_cost(*current_loc, *new_loc),
    {
        proof {
            crate::location::lemma_adjacent_symm(*current_loc, *new_loc);
        }
        let i = self.cell_index(new_loc);
        let neighbor_cell = self.cells[i];
        proof {
            assert(neighbor_cell == self.cell_of(*new_loc));
        }
        let current_to_new_cost = neighbor_cell.cost_to_neighbor(current_loc);
        let j = self.cell_index(current_loc);
        let current_cell = self.cells[j];
        proof {
            assert(current_cell == self.cell_of(*current_loc));
        }
        let new_to_current_cost = current_cell.cost_to_neighbor(new_loc);
        match (current_to_new_cost, new_to_current_cost) {
            (1, 1) => 1,
            _ => 2,
        }
    }

    /// Boundary cost of a cardinal move; the direct edge alone decides.
    fn cardinal_neighbor_boundry_cost_2d(&self, current_loc: &Location, cardinal_loc: Location)
        -> (r: usize)
        requires
            self.wf(),
            self.loc_in_bounds(*current_loc),
            self.loc_in_bounds(cardinal_loc),
            adjacent(*current_loc, cardinal_loc),
        ensures
            r == self.edge_base_cost(*current_loc, cardinal_loc),
    {
        self.boundry_movement_cost_2d(current_loc, &cardinal_loc)
    }

    /// Boundary cost of a planar diagonal move: 1 only when all five edges
    /// of its corner square cost 1.
    fn diaganol_neighbor_boundry_cost(
        &self,
        current_loc: &Location,
        diag_loc: Location,
        cardinal_1: &Location,
        cardinal_2: &Location,
    ) -> (r: usize)
        requires
            self.wf(),
            self.loc_in_bounds(*current_loc),
            self.loc_in_bounds(diag_loc),
            self.loc_in_bounds(*cardinal_1),
            self.loc_in_bounds(*cardinal_2),
            adjacent(*current_loc, *cardinal_1),
            adjacent(*current_loc, *cardinal_2),
            adjacent(*cardinal_1, diag_loc),
            adjacent(*cardinal_2, diag_loc),
            adjacent(*current_loc, diag_loc),
        ensures
            self.edge_base_cost(*current_loc, *cardinal_1) == 1 && self.edge_base_cost(
                *current_loc,
                *cardinal_2,
            ) == 1 && self.edge_base_cost(*cardinal_1, diag_loc) == 1 && self.edge_base_cost(
                *cardinal_2,
                diag_loc,
            ) == 1 && self.edge_base_cost(*current_loc, diag_loc) == 1 ==> r == 1,
            !(self.edge_base_cost(*current_loc, *cardinal_1) == 1 && self.edge_base_cost(
                *current_loc,
                *cardinal_2,
            ) == 1 && self.edge_base_cost(*cardinal_1, diag_loc) == 1 && self.edge_base_cost(
                *cardinal_2,
                diag_loc,
            ) == 1 && self.edge_base_cost(*current_loc, diag_loc) == 1) ==> r == 2,
    {
        match (
            self.boundry_movement_cost_2d(current_loc, cardinal_1),
            self.boundry_movement_cost_2d(current_loc, cardinal_2),
            self.boundry_movement_cost_2d(cardinal_1, &diag_loc),
            self.boundry_movement_cost_2d(cardinal_2, &diag_loc),
            self.boundry_movement_cost_2d(current_loc, &diag_loc),
        ) {
            (1, 1, 1, 1, 1) => 1,
            _ => 2,
        }
    }

    /// The full cost of the move between the adjacent in-bounds pair
    /// `current_loc -> new_loc`: the boundary cost, saturated to 2 when
    /// the destination is difficult terrain. Always 1 or 2.
    pub fn cost_2d(&self, current_loc: &Location, new_loc: &Location) -> (r: usize)
        requires
            self.wf(),
            self.loc_in_bounds(*current_loc),
            self.loc_in_bounds(*new_loc),
            adjacent(*current_loc, *new_loc),
        ensures
            r == self.move_cost_between(*current_loc, *new_loc),
            1 <= r <= 2,
    {
        proof {
            self.lemma_in_bounds_step_fits(*current_loc, Direction::N);
            self.lemma_in_bounds_step_fits(*current_loc, Direction::E);
            self.lemma_in_bounds_step_fits(*current_loc, Direction::S);
            self.lemma_in_bounds_step_fits(*current_loc, Direction::W);
        }
        let boundry_cost: usize = match current_loc.get_dir_from_loc(new_loc) {
            Some(Direction::NW) => {
                let c1 = current_loc.get_loc_from_dir(&Direction::N);
                let c2 = current_loc.get_loc_from_dir(&Direction::W);
                proof {
                    assert(is_neighbor(*current_loc, *new_loc, Direction::NW));
                    assert(is_neighbor(c1, *new_loc, Direction::W));
                    assert(is_neighbor(c2, *new_loc, Direction::N));
                }
                self.diaganol_neighbor_boundry_cost(current_loc, *new_loc, &c1, &c2)
            },
            Some(Direction::NE) => {
                let c1 = current_loc.get_loc_from_dir(&Direction::N);
                let c2 = current_loc.get_loc_from_dir(&Direction::E);
                proof {
                    assert(is_neighbor(*current_loc, *new_loc, Direction::NE));
                    assert(is_neighbor(c1, *new_loc, Direction::E));
                    assert(is_neighbor(c2, *new_loc, Direction::N));
                }
                self.diaganol_neighbor_boundry_cost(current_loc, *new_loc, &c1, &c2)
            },
            Some(Direction::SW) => {
                let c1 = current_loc.get_loc_from_dir(&Direction::S);
                let c2 = current_loc.get_loc_from_dir(&Direction::W);
                proof {
                    assert(is_neighbor(*current_loc, *new_loc, Direction::SW));
                    assert(is_neighbor(c1, *new_loc, Direction::W));
                    assert(is_neighbor(c2, *new_loc, Direction::S));
                }
                self.diaganol_neighbor_boundry_cost(current_loc, *new_loc, &c1, &c2)
            },
            Some(Direction::SE) => {
                let c1 = current_loc.get_loc_from_dir(&Direction::S);
                let c2 = current_loc.get_loc_from_dir(&Direction::E);
                proof {
                    assert(is_neighbor(*current_loc, *new_loc, Direction::SE));
                    assert(is_neighbor(c1, *new_loc, Direction::E));
                    assert(is_neighbor(c2, *new_loc, Direction::S));
                }
                self.diaganol_neighbor_boundry_cost(current_loc, *new_loc, &c1, &c2)
            },
            Some(_) => self.cardinal_neighbor_boundry_cost_2d(current_loc, *new_loc),
            None => 1,
        };
        let i = self.cell_index(new_loc);
        let neighbor_cell = self.cells[i];
        match boundry_cost {
            1 => if neighbor_cell.is_difficult_terrain {
                2
            } else {
                1
            },
            _ => 2,
        }
    }
}

impl Grid {
    /// A step that lands in bounds is computed exactly: the stepped
    /// location is a true neighbor and lies inside the grid.
    pub proof fn lemma_step_in_bounds_exact(self, a: Location, d: Direction)
        requires
            self.step_in_bounds(a, d),
        ensures
            is_neighbor(a, loc_step(a, d), d),
            self.loc_in_bounds(loc_step(a, d)),
    {
    }

    /// The neighbor one step from `a` in direction `d` when that step
    /// stays inside the grid, `None` otherwise. Works from any starting
    /// location, in bounds or not.
    fn try_step(&self, a: &Location, d: &Direction) -> (r: Option<Location>)
        ensures
            r is Some <==> self.step_in_bounds(*a, *d),
            self.step_in_bounds(*a, *d) ==> r == Some(loc_step(*a, *d)) && self.loc_in_bounds(
                loc_step(*a, *d),
            ),
    {
        let (dx, dy, dz) = crate::direction::dir_delta(d);
        let nx = a.x as i16 + dx;
        let ny = a.y as i16 + dy;
        let nz = a.z as i16 + dz;
        if 0 <= nx && nx < self.length as i16 && 0 <= ny && ny < self.height as i16 && 0 <= nz
            && nz < self.width as i16 {
            Some(Location::new(nx as i8, ny as i8, nz as i8))
        } else {
            None
        }
    }

    /// All in-bounds planar neighbors of `current_loc`, one per direction
    /// whose step stays inside the grid, without duplicates.
    pub fn neighbors_2d_iter(&self, current_loc: Location) -> (r: Vec<Location>)
        requires
            self.wf(),
        ensures
            forall|l: Location| #[trigger] r@.contains(l) <==> exists|d: Direction|
                is_planar(d) && #[trigger] self.step_in_bounds(current_loc, d) && l == loc_step(
                    current_loc,
                    d,
                ),
            r@.no_duplicates(),
    {
        proof {
            lemma_planar_dirs_complete();
            lemma_planar_dirs_distinct();
        }
        let mut out: Vec<Location> = Vec::new();
        let mut i: usize = 0;
        while i < 8
            invariant
                self.wf(),
                0 <= i <= 8,
                forall|l: Location| #[trigger] out@.contains(l) <==> exists|j: int|
                    0 <= j < i && #[trigger] self.step_in_bounds(current_loc, planar_dirs()[j])
                        && l == loc_step(current_loc, planar_dirs()[j]),
                out@.no_duplicates(),
            decreases 8 - i,
        {
            let d = self.dirs_2d[i];
            match self.try_step(&current_loc, &d) {
                Some(nb) => {
                    proof {
                        assert(self.step_in_bounds(current_loc, planar_dirs()[i as int]));
                        if out@.contains(nb) {
                            let j = choose|j: int|
                                0 <= j < i && #[trigger] self.step_in_bounds(
                                    current_loc,
                                    planar_dirs()[j],
                                ) && nb == loc_step(current_loc, planar_dirs()[j]);
                            let dj = planar_dirs()[j];
                            self.lemma_step_in_bounds_exact(current_loc, dj);
                            self.lemma_step_in_bounds_exact(current_loc, d);
                            assert(dir_offset(dj).0 == dir_offset(d).0);
                            assert(dir_offset(dj).1 == dir_offset(d).1);
                            assert(dir_offset(dj).2 == dir_offset(d).2);
                            crate::direction::lemma_offset_injective(dj, d);
                            assert(false);
                        }
                    }
                    let ghost pre = out@;
                    out.push(nb);
                    proof {
                        assert forall|l: Location| out@.contains(l) implies exists|j: int|
                            0 <= j < i + 1 && #[trigger] self.step_in_bounds(
                                current_loc,
                                planar_dirs()[j],
                            ) && l == loc_step(current_loc, planar_dirs()[j]) by {
                            if l == nb {
                                assert(self.step_in_bounds(current_loc, planar_dirs()[i as int])
                                    && nb == loc_step(current_loc, planar_dirs()[i as int]));
                            } else {
                                assert(pre.contains(l));
                            }
                        }
                        assert forall|l: Location| (exists|j: int|
                            0 <= j < i + 1 && #[trigger] self.step_in_bounds(
                                current_loc,
                                planar_dirs()[j],
                            ) && l == loc_step(current_loc, planar_dirs()[j])) implies
                            out@.contains(l) by {
                            let j = choose|j: int|
                                0 <= j < i + 1 && #[trigger] self.step_in_bounds(
                                    current_loc,
                                    planar_dirs()[j],
                                ) && l == loc_step(current_loc, planar_dirs()[j]);
                            if j == i {
                                assert(l == nb);
                            } else {
                                assert(pre.contains(l));
                            }
                        }
                    }
                },
                None => {
                    proof {
                        assert forall|l: Location| out@.contains(l) implies exists|j: int|
                            0 <= j < i + 1 && #[trigger] self.step_in_bounds(
                                current_loc,
                                planar_dirs()[j],
                            ) && l == loc_step(current_loc, planar_dirs()[j]) by {}
                    }
                },
            }
            i = i + 1;
        }
        proof {
            assert forall|l: Location| #[trigger] out@.contains(l) implies exists|d: Direction|
                is_planar(d) && #[trigger] self.step_in_bounds(current_loc, d) && l == loc_step(
                    current_loc,
                    d,
                ) by {
                let j = choose|j: int|
                    0 <= j < 8 && #[trigger] self.step_in_bounds(current_loc, planar_dirs()[j])
                        && l == loc_step(current_loc, planar_dirs()[j]);
                assert(is_planar(planar_dirs()[j]) && self.step_in_bounds(
                    current_loc,
                    planar_dirs()[j],
                ) && l == loc_step(current_loc, planar_dirs()[j]));
            }
        }
        out
    }

    /// All planar neighbors of `current_loc` that the passability rules
    /// admit entering from it, without duplicates.
    pub fn visitable_neighbors_2d_iter(&self, current_loc: Location) -> (r: Vec<Location>)
        requires
            self.wf(),
        ensures
            forall|l: Location| #[trigger] r@.contains(l) <==> exists|d: Direction|
                is_planar(d) && #[trigger] self.passable_toward(current_loc, d) && l == loc_step(
                    current_loc,
                    d,
                ),
            r@.no_duplicates(),
    {
        proof {
            lemma_planar_dirs_complete();
            lemma_planar_dirs_distinct();
        }
        let mut out: Vec<Location> = Vec::new();
        let mut i: usize = 0;
        while i < 8
            invariant
                self.wf(),
                0 <= i <= 8,
                forall|l: Location| #[trigger] out@.contains(l) <==> exists|j: int|
                    0 <= j < i && #[trigger] self.passable_toward(current_loc, planar_dirs()[j])
                        && l == loc_step(current_loc, planar_dirs()[j]),
                out@.no_duplicates(),
            decreases 8 - i,
        {
            let d = self.dirs_2d[i];
            match self.try_get_passable_neighbor(&current_loc, &d) {
                Some(nb) => {
                    proof {
                        assert(self.passable_toward(current_loc, planar_dirs()[i as int]));
                        if out@.contains(nb) {
                            let j = choose|j: int|
                                0 <= j < i && #[trigger] self.passable_toward(
                                    current_loc,
                                    planar_dirs()[j],
                                ) && nb == loc_step(current_loc, planar_dirs()[j]);
                            let dj = planar_dirs()[j];
                            self.lemma_passable_facts(current_loc, dj);
                            self.lemma_passable_facts(current_loc, d);
                            assert(dir_offset(dj).0 == dir_offset(d).0);
                            assert(dir_offset(dj).1 == dir_offset(d).1);
                            assert(dir_offset(dj).2 == dir_offset(d).2);
                            crate::direction::lemma_offset_injective(dj, d);
                            assert(false);
                        }
                    }
                    let ghost pre = out@;
                    out.push(nb);
                    proof {
                        assert forall|l: Location| out@.contains(l) implies exists|j: int|
                            0 <= j < i + 1 && #[trigger] self.passable_toward(
                                current_loc,
                                planar_dirs()[j],
                            ) && l == loc_step(current_loc, planar_dirs()[j]) by {
                            if l == nb {
                                assert(self.passable_toward(current_loc, planar_dirs()[i as int])
                                    && nb == loc_step(current_loc, planar_dirs()[i as int]));
                            } else {
                                assert(pre.contains(l));
                            }
                        }
                        assert forall|l: Location| (exists|j: int|
                            0 <= j < i + 1 && #[trigger] self.passable_toward(
                                current_loc,
                                planar_dirs()[j],
                            ) && l == loc_step(current_loc, planar_dirs()[j])) implies
                            out@.contains(l) by {
                            let j = choose|j: int|
                                0 <= j < i + 1 && #[trigger] self.passable_toward(
                                    current_loc,
                                    planar_dirs()[j],
                                ) && l == loc_step(current_loc, planar_dirs()[j]);
                            if j == i {
                                assert(l == nb);
                            } else {
                                assert(pre.contains(l));
                            }
                        }
                    }
                },
                None => {
                    proof {
                        assert forall|l: Location| out@.contains(l) implies exists|j: int|
                            0 <= j < i + 1 && #[trigger] self.passable_toward(
                                current_loc,
                                planar_dirs()[j],
                            ) && l == loc_step(current_loc, planar_dirs()[j]) by {}
                    }
                },
            }
            i = i + 1;
        }
        proof {
            assert forall|l: Location| #[trigger] out@.contains(l) implies exists|d: Direction|
                is_planar(d) && #[trigger] self.passable_toward(current_loc, d) && l == loc_step(
                    current_loc,
                    d,
                ) by {
                let j = choose|j: int|
                    0 <= j < 8 && #[trigger] self.passable_toward(current_loc, planar_dirs()[j])
                        && l == loc_step(current_loc, planar_dirs()[j]);
                assert(is_planar(planar_dirs()[j]) && self.passable_toward(
                    current_loc,
                    planar_dirs()[j],
                ) && l == loc_step(current_loc, planar_dirs()[j]));
            }
        }
        out
    }

    /// Any move the passability rules admit starts and ends in bounds, at
    /// adjacent locations, and never enters an obstructed cell.
    pub proof fn lemma_passable_facts(self, a: Location, d: Direction)
        requires
            self.passable_toward(a, d),
        ensures
            self.loc_in_bounds(a),
            self.loc_in_bounds(loc_step(a, d)),
            is_neighbor(a, loc_step(a, d), d),
            adjacent(a, loc_step(a, d)),
            !self.obstructed_at(loc_step(a, d)),
    {
        assert(self.loc_in_bounds(a));
        self.lemma_in_bounds_step_fits(a, d);
        assert(is_neighbor(a, loc_step(a, d), d));
    }

    /// A `Full` boundary on `a` facing `d` blocks the move both ways:
    /// neither `a` into its neighbor nor the neighbor back into `a` is
    /// passable. After a mirrored `Full` boundary is added at `a` facing
    /// `d`, this holds of the resulting grid.
    pub proof fn lemma_full_boundary_blocks(self, a: Location, d: Direction)
        requires
            self.wf(),
            self.loc_in_bounds(a),
            self.boundary_of(a, d) == Some(Boundry::Full),
        ensures
            !self.passable_toward(a, d),
            !self.passable_toward(loc_step(a, d), opposite(d)),
    {
        self.lemma_in_bounds_step_fits(a, d);
        let b = loc_step(a, d);
        assert(is_neighbor(a, b, d));
        if self.loc_in_bounds(b) {
            lemma_dir_between_of_neighbor(a, b, d);
            assert(self.cell_of(a).toward(b) == Some(Boundry::Full));
            assert(!self.edge_open(a, b));
            crate::location::lemma_neighbor_opposite(a, b, d);
            self.lemma_in_bounds_step_fits(b, opposite(d));
            assert(loc_step(b, opposite(d)) == a) by {
                crate::direction::lemma_opposite_offset(d);
            }
            assert(!self.edge_open(b, a));
        } else {
            assert(!self.edge_open(a, b));
            assert(!self.edge_open(b, loc_step(b, opposite(d))));
        }
    }

    /// Move costs are always 1 or 2, and a planar diagonal's cost is never
    /// below the boundary cost of any of the five edges that contribute to
    /// it.
    pub proof fn lemma_cost_bounds(self, a: Location, d: Direction)
        ensures
            1 <= self.move_cost(a, d) <= 2,
            is_diagonal_2d(d) ==> {
                let b = loc_step(a, d);
                let c1 = loc_step(a, flank_ew(d));
                let c2 = loc_step(a, flank_ns(d));
                &&& self.move_cost(a, d) >= self.edge_base_cost(a, c1)
                &&& self.move_cost(a, d) >= self.edge_base_cost(a, c2)
                &&& self.move_cost(a, d) >= self.edge_base_cost(c1, b)
                &&& self.move_cost(a, d) >= self.edge_base_cost(c2, b)
                &&& self.move_cost(a, d) >= self.edge_base_cost(a, b)
            },
            !is_diagonal_2d(d) ==> self.move_cost(a, d) >= self.edge_base_cost(a, loc_step(a, d)),
    {
    }

    /// An obstructed cell can never be entered: no passable move ends on
    /// it, whatever the boundaries around it say.
    pub proof fn lemma_obstruction_blocks(self, b: Location)
        requires
            self.obstructed_at(b),
        ensures
            forall|a: Location, d: Direction| #[trigger] self.passable_toward(a, d) ==> loc_step(
                a,
                d,
            ) != b,
    {
    }
}

} // verus!
