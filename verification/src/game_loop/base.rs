//! Base tiles and their storage.

use vstd::prelude::*;
use crate::game_loop::placement::Placement;
use crate::geometry::IVec2;

verus! {

/// A base tile on a lattice position.
#[derive(Clone, Copy, Debug, PartialEq, Eq, Structural)]
pub struct Base {
    pub spec_id: usize,
    pub position: IVec2,
}

impl Base {
    pub fn new(spec_id: usize, position: IVec2) -> (base: Base)
        ensures
            base.spec_id == spec_id,
            base.position == position,
    {
        Base { spec_id, position }
    }

    /// What the tile is and where it stands, which is all of it.
    pub open spec fn placement(self) -> Placement {
        Placement { spec_id: self.spec_id, position: self.position }
    }
}

/// The base tiles in the order in which they were inserted. A tile is
/// identified by its place in that order.
pub struct BaseStorage {
    bases: Vec<Base>,
}

impl View for BaseStorage {
    type V = Seq<Base>;

    closed spec fn view(&self) -> Seq<Base> {
        self.bases@
    }
}

impl BaseStorage {
    /// What stands where, in the order of insertion.
    pub open spec fn placements(&self) -> Seq<Placement> {
        self@.map_values(|base: Base| base.placement())
    }

    pub fn new() -> (storage: BaseStorage)
        ensures
            storage@ == Seq::<Base>::empty(),
    {
        BaseStorage { bases: Vec::new() }
    }

    /// Appends a tile and returns its id.
    pub fn insert(&mut self, base: Base) -> (id: usize)
        ensures
            id == old(self)@.len(),
            final(self)@ == old(self)@.push(base),
            final(self).placements() == old(self).placements().push(base.placement()),
    {
        let id = self.bases.len();
        self.bases.push(base);
        assert(self.placements() =~= old(self).placements().push(base.placement()));
        id
    }

    /// The tile under an id, if one was inserted under it.
    pub fn get(&self, id: usize) -> (base: Option<&Base>)
        ensures
            base == (if id < self@.len() {
                Some(&self@[id as int])
            } else {
                None
            }),
    {
        if id < self.bases.len() {
            Some(&self.bases[id])
        } else {
            None
        }
    }

    /// The number of tiles.
    pub fn len(&self) -> (len: usize)
        ensures
            len == self@.len(),
    {
        self.bases.len()
    }
}

} // verus!
