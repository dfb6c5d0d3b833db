//! Units: identified objects in space.

use vstd::prelude::*;
use crate::geometry::Vec3;

verus! {

/// What a unit is.
#[derive(Debug, Clone, Copy, PartialEq, Eq, Structural)]
pub enum UnitKind {
    Player,
}

impl UnitKind {
    /// Whether units of this kind can be broken. A player cannot.
    pub fn breakable(&self) -> (breakable: bool)
        ensures
            breakable == (match self {
                UnitKind::Player => false,
            }),
    {
        match self {
            UnitKind::Player => false,
        }
    }
}

/// A unit. Its id is the text form of its identifier.
#[derive(Debug, Clone)]
pub struct Unit {
    pub id: String,
    pub position: Vec3,
    pub kind: UnitKind,
}

impl Unit {
    pub fn new(id: String, position: Vec3, kind: UnitKind) -> (unit: Unit)
        ensures
            unit.id == id,
            unit.position == position,
            unit.kind == kind,
    {
        Self { id, position, kind }
    }
}

} // verus!
