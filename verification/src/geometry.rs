//! Vectors and axis-aligned boxes, in world coordinates and on integer grids.

use vstd::prelude::*;
use vstd::arithmetic::div_mod::*;
use crate::scalar::{Scalar, lemma_grid_index_is_monotonic};

verus! {

/// A point of the plane in world coordinates.
#[derive(Clone, Copy, Debug, PartialEq, Eq, Structural)]
pub struct Vec2 {
    pub x: Scalar,
    pub y: Scalar,
}

/// A point of space in world coordinates.
#[derive(Clone, Copy, Debug, PartialEq, Eq, Structural)]
pub struct Vec3 {
    pub x: Scalar,
    pub y: Scalar,
    pub z: Scalar,
}

/// An axis-aligned box of space in world coordinates, both corners included.
#[derive(Clone, Copy, Debug, PartialEq, Eq, Structural)]
pub struct Bounds {
    pub min: Vec3,
    pub max: Vec3,
}

/// A point of an integer grid: a grid cell, a chunk, or a lattice position.
#[derive(Clone, Copy, Debug, PartialEq, Eq, Structural)]
pub struct IVec2 {
    pub x: i32,
    pub y: i32,
}

/// An axis-aligned box in world coordinates, both corners included.
#[derive(Clone, Copy, Debug, PartialEq, Eq, Structural)]
pub struct Aabb2 {
    pub min: Vec2,
    pub max: Vec2,
}

/// An axis-aligned box on an integer grid, both corners included.
#[derive(Clone, Copy, Debug, PartialEq, Eq, Structural)]
pub struct IAabb2 {
    pub min: IVec2,
    pub max: IVec2,
}

/// `floor(a / b)` for a positive divisor.
pub fn div_floor(a: i32, b: i32) -> (q: i32)
    requires
        b > 0,
    ensures
        q == a as int / b as int,
{
    if a >= 0 {
        a / b
    } else {
        // floor(a / b) == -ceil(-a / b)
        let n: i64 = -(a as i64);
        let b: i64 = b as i64;
        let c: i64 = (n + b - 1) / b;
        proof {
            let rem = (n + b - 1) % (b as int);
            lemma_fundamental_div_mod(n + b - 1, b as int);
            lemma_mod_bound(n + b - 1, b as int);
            assert(a as int == (-c) * b + (b - 1 - rem)) by (nonlinear_arith)
                requires
                    n + b - 1 == b * c + rem,
                    a == -n,
            ;
            lemma_fundamental_div_mod_converse(a as int, b as int, -c, b - 1 - rem);
            lemma_div_pos_is_pos(n + b - 1, b as int);
            assert(c <= n) by (nonlinear_arith)
                requires
                    n + b - 1 == b * c + rem,
                    0 <= rem,
                    1 <= b,
                    1 <= n,
                    0 <= c,
            ;
        }
        (-c) as i32
    }
}

impl Vec2 {
    pub fn new(x: Scalar, y: Scalar) -> (v: Vec2)
        ensures
            v.x == x,
            v.y == y,
    {
        Vec2 { x, y }
    }

    /// The grid cell that holds this point.
    pub open spec fn grid_cell(self) -> IVec2 {
        IVec2 { x: self.x.grid_index() as i32, y: self.y.grid_index() as i32 }
    }

    /// Componentwise Euclidean division by the cell size, as integers.
    pub fn div_euclid_grid(self) -> (cell: IVec2)
        ensures
            cell == self.grid_cell(),
    {
        IVec2 { x: self.x.div_euclid_grid(), y: self.y.div_euclid_grid() }
    }
}

impl Vec3 {
    pub fn new(x: Scalar, y: Scalar, z: Scalar) -> (v: Vec3)
        ensures
            v.x == x,
            v.y == y,
            v.z == z,
    {
        Vec3 { x, y, z }
    }
}

impl Bounds {
    pub fn new(min: Vec3, max: Vec3) -> (b: Bounds)
        ensures
            b.min == min,
            b.max == max,
    {
        Bounds { min, max }
    }

    /// Whether `point` lies in the box, by floating-point comparison.
    pub open spec fn contains(self, point: Vec3) -> bool {
        &&& self.min.x.le(point.x)
        &&& point.x.le(self.max.x)
        &&& self.min.y.le(point.y)
        &&& point.y.le(self.max.y)
        &&& self.min.z.le(point.z)
        &&& point.z.le(self.max.z)
    }

    /// Decides whether `point` lies in the box, the corners included.
    pub fn inclusive_contains(&self, point: &Vec3) -> (inside: bool)
        ensures
            inside == self.contains(*point),
    {
        self.min.x.is_le(point.x) && point.x.is_le(self.max.x) && self.min.y.is_le(point.y)
            && point.y.is_le(self.max.y) && self.min.z.is_le(point.z) && point.z.is_le(
            self.max.z,
        )
    }
}

impl IVec2 {
    pub fn new(x: i32, y: i32) -> (v: IVec2)
        ensures
            v.x == x,
            v.y == y,
    {
        IVec2 { x, y }
    }
}

impl Aabb2 {
    pub fn new(min: Vec2, max: Vec2) -> (b: Aabb2)
        ensures
            b.min == min,
            b.max == max,
    {
        Aabb2 { min, max }
    }

    /// Whether `point` lies in the box, by floating-point comparison.
    pub open spec fn contains(self, point: Vec2) -> bool {
        &&& self.min.x.le(point.x)
        &&& point.x.le(self.max.x)
        &&& self.min.y.le(point.y)
        &&& point.y.le(self.max.y)
    }

    /// The box of grid cells that the corners fall in.
    pub open spec fn grid_cells(self) -> IAabb2 {
        IAabb2 { min: self.min.grid_cell(), max: self.max.grid_cell() }
    }

    /// Euclidean division of both corners by the cell size, as integers.
    pub fn div_euclid_grid(self) -> (cells: IAabb2)
        ensures
            cells == self.grid_cells(),
    {
        IAabb2 { min: self.min.div_euclid_grid(), max: self.max.div_euclid_grid() }
    }
}

impl IAabb2 {
    pub fn new(min: IVec2, max: IVec2) -> (b: IAabb2)
        ensures
            b.min == min,
            b.max == max,
    {
        IAabb2 { min, max }
    }

    /// Whether `point` lies in the box.
    pub open spec fn contains(self, point: IVec2) -> bool {
        &&& self.min.x <= point.x <= self.max.x
        &&& self.min.y <= point.y <= self.max.y
    }

    /// The points of the box.
    pub open spec fn points(self) -> Set<IVec2> {
        Set::new(|point: IVec2| self.contains(point))
    }

    /// The number of columns of the box.
    pub open spec fn width(self) -> nat {
        if self.min.x <= self.max.x {
            (self.max.x - self.min.x + 1) as nat
        } else {
            0
        }
    }

    /// The number of rows of the box.
    pub open spec fn height(self) -> nat {
        if self.min.y <= self.max.y {
            (self.max.y - self.min.y + 1) as nat
        } else {
            0
        }
    }

    /// The box of the cells of side `size` that the corners fall in.
    pub open spec fn grid_space(self, size: i32) -> IAabb2 {
        IAabb2 {
            min: IVec2 { x: (self.min.x / size) as i32, y: (self.min.y / size) as i32 },
            max: IVec2 { x: (self.max.x / size) as i32, y: (self.max.y / size) as i32 },
        }
    }

    /// The box with `margin` more cells on every side.
    pub open spec fn extended(self, margin: i32) -> IAabb2 {
        IAabb2 {
            min: IVec2 { x: (self.min.x - margin) as i32, y: (self.min.y - margin) as i32 },
            max: IVec2 { x: (self.max.x + margin) as i32, y: (self.max.y + margin) as i32 },
        }
    }

    /// Converts the box to the grid of cells of side `size`, by floor
    /// division of both corners.
    pub fn to_grid_space(self, size: i32) -> (cells: IAabb2)
        requires
            size > 0,
        ensures
            cells == self.grid_space(size),
    {
        IAabb2 {
            min: IVec2 { x: div_floor(self.min.x, size), y: div_floor(self.min.y, size) },
            max: IVec2 { x: div_floor(self.max.x, size), y: div_floor(self.max.y, size) },
        }
    }

    /// Grows the box by `margin` on every side.
    pub fn extends(self, margin: i32) -> (grown: IAabb2)
        requires
            0 <= margin,
            i32::MIN <= self.min.x - margin,
            i32::MIN <= self.min.y - margin,
            self.max.x + margin <= i32::MAX,
            self.max.y + margin <= i32::MAX,
        ensures
            grown == self.extended(margin),
    {
        IAabb2 {
            min: IVec2 { x: self.min.x - margin, y: self.min.y - margin },
            max: IVec2 { x: self.max.x + margin, y: self.max.y + margin },
        }
    }
}

/// The law that a box of world coordinates holds only points whose cell lies
/// in the box of cells that its corners fall in.
pub proof fn lemma_contained_point_is_in_grid_cells(bounds: Aabb2, point: Vec2)
    requires
        bounds.contains(point),
    ensures
        bounds.grid_cells().contains(point.grid_cell()),
{
    lemma_grid_index_is_monotonic(bounds.min.x, point.x);
    lemma_grid_index_is_monotonic(point.x, bounds.max.x);
    lemma_grid_index_is_monotonic(bounds.min.y, point.y);
    lemma_grid_index_is_monotonic(point.y, bounds.max.y);
}

} // verus!
