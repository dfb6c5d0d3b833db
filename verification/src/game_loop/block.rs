//! Blocks and their storage.

use vstd::prelude::*;
use crate::game_loop::placement::Placement;
use crate::geometry::IVec2;

verus! {

/// A block on a lattice position.
#[derive(Clone, Copy, Debug, PartialEq, Eq, Structural)]
pub struct Block {
    pub spec_id: usize,
    pub position: IVec2,
    /// The depth jitter, drawn once when the block is made, in units of
    /// 2^-16: the jitter of a block lies in [0, 2^-8). It only breaks ties of
    /// depth between blocks.
    pub z_random: u8,
}

impl Block {
    pub fn new(spec_id: usize, position: IVec2, z_random: u8) -> (block: Block)
        ensures
            block.spec_id == spec_id,
            block.position == position,
            block.z_random == z_random,
    {
        Block { spec_id, position, z_random }
    }

    /// What the block is and where it stands.
    pub open spec fn placement(self) -> Placement {
        Placement { spec_id: self.spec_id, position: self.position }
    }

    /// The depth jitter that 32 random bits stand for: their lowest eight.
    pub open spec fn jitter(draw: u32) -> u8 {
        (draw % 0x100) as u8
    }

    /// Takes the depth jitter from 32 random bits.
    pub fn jitter_of(draw: u32) -> (z_random: u8)
        ensures
            z_random == Self::jitter(draw),
    {
        (draw % 0x100) as u8
    }
}

/// The blocks in the order in which they were inserted. A block is
/// identified by its place in that order.
pub struct BlockStorage {
    blocks: Vec<Block>,
}

impl View for BlockStorage {
    type V = Seq<Block>;

    closed spec fn view(&self) -> Seq<Block> {
        self.blocks@
    }
}

impl BlockStorage {
    /// What stands where, in the order of insertion.
    pub open spec fn placements(&self) -> Seq<Placement> {
        self@.map_values(|block: Block| block.placement())
    }

    pub fn new() -> (storage: BlockStorage)
        ensures
            storage@ == Seq::<Block>::empty(),
    {
        BlockStorage { blocks: Vec::new() }
    }

    /// Appends a block and returns its id.
    pub fn insert(&mut self, block: Block) -> (id: usize)
        ensures
            id == old(self)@.len(),
            final(self)@ == old(self)@.push(block),
            final(self).placements() == old(self).placements().push(block.placement()),
    {
        let id = self.blocks.len();
        self.blocks.push(block);
        assert(self.placements() =~= old(self).placements().push(block.placement()));
        id
    }

    /// The block under an id, if one was inserted under it.
    pub fn get(&self, id: usize) -> (block: Option<&Block>)
        ensures
            block == (if id < self@.len() {
                Some(&self@[id as int])
            } else {
                None
            }),
    {
        if id < self.blocks.len() {
            Some(&self.blocks[id])
        } else {
            None
        }
    }

    /// The number of blocks.
    pub fn len(&self) -> (len: usize)
        ensures
            len == self@.len(),
    {
        self.blocks.len()
    }
}

} // verus!
